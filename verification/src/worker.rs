//! The worker's task-execution pipeline: map, partition and spill;
//! merge, group and emit.  File and network transfer stay outside;
//! these functions compute on the contents handed to them.

use vstd::prelude::*;
use vstd::arithmetic::div_mod::lemma_add_mod_noop;
use vstd::relations::total_ordering;
use vstd::seq_lib::lemma_sorted_unique;
use vstd::string::{StrSliceExecFns, StringExecFns};
use crate::codec::{
    CodecError, dec_digits, encode_records, push_dec, spec_decode, decode_records_str,
    encode_records_str,
};
use crate::kv::{
    KeyValue, KvView, chars_le, kv_le, kvs_sorted, lemma_kv_le_antisym, lemma_kv_le_total,
    lemma_kv_le_trans, sort_kvs, views_of,
};
use crate::task::{ReportArgs, RequestReply, TaskType, strs_view};

verus! {

/// The user-supplied map function, obtained from an external function
/// provider: a deterministic, side-effect-free callable from an input
/// file's name and contents to a record sequence.
pub trait MapFunc {
    fn call(&self, filename: String, contents: String) -> Vec<KeyValue>;
}

/// The user-supplied reduce function: from a key and every value
/// collected for it to one output string.
pub trait ReduceFunc {
    fn call(&self, key: String, values: Vec<String>) -> String;
}

/// The sum of a byte sequence.
pub open spec fn byte_sum(bytes: Seq<u8>) -> nat
    decreases bytes.len(),
{
    if bytes.len() == 0 {
        0
    } else {
        byte_sum(bytes.drop_last()) + bytes.last() as nat
    }
}

/// The task hash of a key: the sum of its UTF-8 byte values, a
/// deterministic, platform-independent function of the key alone.
pub open spec fn spec_ihash(key: Seq<char>) -> nat {
    byte_sum(vstd::utf8::encode_utf8(key))
}

/// The partition a key's records are routed to, for a fixed bucket count.
pub open spec fn spec_partition(key: Seq<char>, n_reduce: int) -> int {
    spec_ihash(key) as int % n_reduce
}

proof fn lemma_byte_sum_step(b: Seq<u8>, i: int)
    requires
        0 <= i < b.len(),
    ensures
        byte_sum(b.take(i + 1)) == byte_sum(b.take(i)) + b[i],
{
    assert(b.take(i + 1).drop_last() =~= b.take(i));
    assert(b.take(i + 1).last() == b[i]);
}

proof fn lemma_byte_sum_monotone(b: Seq<u8>, i: int, j: int)
    requires
        0 <= i <= j <= b.len(),
    ensures
        byte_sum(b.take(j)) >= byte_sum(b.take(i)),
    decreases j - i,
{
    if i < j {
        lemma_byte_sum_monotone(b, i, j - 1);
        lemma_byte_sum_step(b, j - 1);
    }
}

/// The raw key hash: the plain byte sum.  The sum
/// must fit the machine word; partitioning itself never needs the raw
/// sum and uses `partition_of` instead.
pub fn ihash(key: &str) -> (r: usize)
    requires
        spec_ihash(key@) <= usize::MAX,
    ensures
        r as nat == spec_ihash(key@),
{
    let bytes = key.as_bytes_vec();
    let ghost total = byte_sum(bytes@);
    let mut sum: usize = 0;
    let mut i: usize = 0;
    proof {
        assert(bytes@.take(0) =~= Seq::<u8>::empty());
    }
    while i < bytes.len()
        invariant
            i <= bytes@.len(),
            bytes@ == vstd::utf8::encode_utf8(key@),
            total == byte_sum(bytes@),
            total <= usize::MAX,
            sum as nat == byte_sum(bytes@.take(i as int)),
        decreases bytes@.len() - i,
    {
        proof {
            lemma_byte_sum_step(bytes@, i as int);
            lemma_byte_sum_monotone(bytes@, i as int + 1, bytes@.len() as int);
            assert(bytes@.take(bytes@.len() as int) =~= bytes@);
        }
        sum = sum + (bytes[i] as usize);
        i = i + 1;
    }
    proof {
        assert(bytes@.take(bytes@.len() as int) =~= bytes@);
    }
    sum
}

/// Routes a key to its bucket: the byte-sum hash reduced modulo the
/// bucket count, computed without overflow for any key.
pub fn partition_of(key: &str, n_reduce: usize) -> (r: usize)
    requires
        n_reduce >= 1,
    ensures
        r as int == spec_partition(key@, n_reduce as int),
        r < n_reduce,
{
    let bytes = key.as_bytes_vec();
    let mut h: usize = 0;
    let mut i: usize = 0;
    proof {
        assert(bytes@.take(0) =~= Seq::<u8>::empty());
    }
    while i < bytes.len()
        invariant
            i <= bytes@.len(),
            n_reduce >= 1,
            bytes@ == vstd::utf8::encode_utf8(key@),
            h as int == byte_sum(bytes@.take(i as int)) as int % n_reduce as int,
            h < n_reduce,
        decreases bytes@.len() - i,
    {
        let b = (bytes[i] as usize) % n_reduce;
        let ghost s = byte_sum(bytes@.take(i as int)) as int;
        let ghost bv = bytes@[i as int] as int;
        let ghost n = n_reduce as int;
        let next = if b >= n_reduce - h {
            h - (n_reduce - b)
        } else {
            h + b
        };
        proof {
            lemma_byte_sum_step(bytes@, i as int);
            lemma_add_mod_noop(s, bv, n);
            assert((h as int + b as int) % n == (s + bv) % n) by {
                assert(h as int == s % n);
                assert(b as int == bv % n);
                lemma_add_mod_noop(s % n, bv % n, n);
                vstd::arithmetic::div_mod::lemma_mod_twice(s, n);
                vstd::arithmetic::div_mod::lemma_mod_twice(bv, n);
            }
            assert(next as int == (h as int + b as int) % n) by (nonlinear_arith)
                requires
                    0 <= h < n,
                    0 <= b < n,
                    next as int == (if b as int >= n - h as int {
                        h as int - (n - b as int)
                    } else {
                        h as int + b as int
                    }),
            ;
        }
        h = next;
        i = i + 1;
    }
    proof {
        assert(bytes@.take(bytes@.len() as int) =~= bytes@);
    }
    h
}

/// Partitioning is deterministic: the same key always maps to the
/// same bucket for a fixed bucket count, in every call and process.
pub proof fn lemma_partition_deterministic(k1: Seq<char>, k2: Seq<char>, n_reduce: int)
    requires
        k1 == k2,
        n_reduce >= 1,
    ensures
        spec_partition(k1, n_reduce) == spec_partition(k2, n_reduce),
{
}

/// The name of the intermediate file a map task writes for a bucket.
pub open spec fn spec_inter_name(task_no: int, bucket: int) -> Seq<char> {
    seq!['m', 'r', '-'] + dec_digits(task_no as nat) + seq!['-'] + dec_digits(bucket as nat)
}

/// The final name of a reduce task's output file.
pub open spec fn spec_out_name(ord: int) -> Seq<char> {
    seq!['m', 'r', '-', 'o', 'u', 't', '-'] + dec_digits(ord as nat)
}

/// Builds `mr-<task_no>-<bucket>`.
pub fn inter_name(task_no: usize, bucket: usize) -> (r: String)
    ensures
        r@ == spec_inter_name(task_no as int, bucket as int),
{
    proof {
        reveal_strlit("mr-");
        reveal_strlit("-");
    }
    let mut s = String::from_str("mr-");
    push_dec(&mut s, task_no);
    s.append("-");
    push_dec(&mut s, bucket);
    proof {
        assert("mr-"@ =~= seq!['m', 'r', '-']);
        assert("-"@ =~= seq!['-']);
        assert(s@ =~= spec_inter_name(task_no as int, bucket as int));
    }
    s
}

/// Builds `mr-out-<ord>`.
pub fn out_name(ord: usize) -> (r: String)
    ensures
        r@ == spec_out_name(ord as int),
{
    proof {
        reveal_strlit("mr-out-");
    }
    let mut s = String::from_str("mr-out-");
    push_dec(&mut s, ord);
    proof {
        assert("mr-out-"@ =~= seq!['m', 'r', '-', 'o', 'u', 't', '-']);
        assert(s@ =~= spec_out_name(ord as int));
    }
    s
}

/// The record total order as a relation value.
pub open spec fn kv_le_fn() -> spec_fn(KvView, KvView) -> bool {
    |a: KvView, b: KvView| kv_le(a, b)
}

pub proof fn lemma_kv_le_fn_total()
    ensures
        total_ordering(kv_le_fn()),
{
    let leq = kv_le_fn();
    assert forall|x: KvView| #[trigger] leq(x, x) by {
        lemma_kv_le_total(x, x);
    }
    assert forall|x: KvView, y: KvView| #[trigger] leq(x, y) && #[trigger] leq(y, x) implies x
        == y by {
        lemma_kv_le_antisym(x, y);
    }
    assert forall|x: KvView, y: KvView, z: KvView|
        #[trigger] leq(x, y) && #[trigger] leq(y, z) implies leq(x, z) by {
        lemma_kv_le_trans(x, y, z);
    }
    assert forall|x: KvView, y: KvView| #[trigger] leq(x, y) || #[trigger] leq(y, x) by {
        lemma_kv_le_total(x, y);
    }
}

/// The canonical ascending arrangement of a record sequence.
pub open spec fn sorted_of(s: Seq<KvView>) -> Seq<KvView> {
    s.sort_by(kv_le_fn())
}

/// The records of `s` routed to bucket `i`, kept in order.
pub open spec fn restrict(s: Seq<KvView>, i: int, n: int) -> Seq<KvView>
    decreases s.len(),
{
    if s.len() == 0 {
        Seq::empty()
    } else if spec_partition(s.last().0, n) == i {
        restrict(s.drop_last(), i, n).push(s.last())
    } else {
        restrict(s.drop_last(), i, n)
    }
}

/// Bucket `i` of a map task over records `kvs`: the records hashed to
/// partition `i`, in the canonical sorted order.
pub open spec fn bucket_of(kvs: Seq<KvView>, i: int, n: int) -> Seq<KvView> {
    restrict(sorted_of(kvs), i, n)
}

/// One intermediate file a map task asks to have written.
pub struct FileOutput {
    pub name: String,
    pub contents: String,
}

/// Everything a map task produces: the files to write and the report
/// to send once they are written.
pub struct MapOutput {
    pub files: Vec<FileOutput>,
    pub report: ReportArgs,
}

/// Each planned file holds exactly the encoding of its bucket.
pub open spec fn map_files_match(
    files: Seq<FileOutput>,
    kvs: Seq<KvView>,
    n_reduce: int,
) -> bool {
    forall|i: int|
        0 <= i < files.len() ==> (#[trigger] files[i]).contents@ == encode_records(
            bucket_of(kvs, i, n_reduce),
        )
}

/// Lays out a map task's output from the records the user map
/// function emitted: sorts them, routes each to its bucket, and
/// encodes one intermediate file per bucket.
pub fn plan_map(kvs: Vec<KeyValue>, filename: String, task_no: usize, n_reduce: usize) -> (r:
    MapOutput)
    requires
        n_reduce >= 1,
    ensures
        r.files@.len() == n_reduce,
        forall|i: int|
            0 <= i < n_reduce ==> (#[trigger] r.files@[i]).name@ == spec_inter_name(
                task_no as int,
                i,
            ),
        map_files_match(r.files@, views_of(kvs@), n_reduce as int),
        r.report matches ReportArgs::MapDone { task, intermediates } && task@ == filename@
            && intermediates@.len() == n_reduce && (forall|i: int|
            0 <= i < n_reduce ==> (#[trigger] intermediates@[i])@ == spec_inter_name(
                task_no as int,
                i,
            )),
{
    let ghost kv_views = views_of(kvs@);
    let sorted = sort_kvs(kvs);
    proof {
        lemma_kv_le_fn_total();
        kv_views.lemma_sort_by_ensures(kv_le_fn());
        assert forall|i: int, j: int| 0 <= i < j < views_of(sorted@).len() implies #[trigger] kv_le_fn()(
            views_of(sorted@)[i],
            views_of(sorted@)[j],
        ) by {
            assert(kv_le(views_of(sorted@)[i], views_of(sorted@)[j]));
        }
        lemma_sorted_unique(views_of(sorted@), sorted_of(kv_views), kv_le_fn());
        assert(views_of(sorted@) == sorted_of(kv_views));
    }
    let mut buckets: Vec<Vec<KeyValue>> = Vec::new();
    let mut b: usize = 0;
    while b < n_reduce
        invariant
            b <= n_reduce,
            buckets@.len() == b,
            forall|q: int|
                0 <= q < b ==> views_of((#[trigger] buckets@[q])@) == Seq::<KvView>::empty(),
        decreases n_reduce - b,
    {
        let fresh: Vec<KeyValue> = Vec::new();
        proof {
            assert(views_of(fresh@) =~= Seq::<KvView>::empty());
        }
        buckets.push(fresh);
        b = b + 1;
    }
    let ghost sv = views_of(sorted@);
    let mut i: usize = 0;
    proof {
        assert(sv.take(0) =~= Seq::<KvView>::empty());
        assert forall|q: int| 0 <= q < n_reduce implies restrict(sv.take(0), q, n_reduce as int)
            == Seq::<KvView>::empty() by {}
    }
    while i < sorted.len()
        invariant
            i <= sorted@.len(),
            n_reduce >= 1,
            buckets@.len() == n_reduce,
            sv == views_of(sorted@),
            forall|q: int|
                0 <= q < n_reduce ==> views_of((#[trigger] buckets@[q])@) == restrict(
                    sv.take(i as int),
                    q,
                    n_reduce as int,
                ),
        decreases sorted@.len() - i,
    {
        let kv = sorted[i].clone();
        let p = partition_of(kv.key.as_str(), n_reduce);
        let ghost pre = buckets@[p as int]@;
        buckets[p].push(kv);
        proof {
            assert(sv.take(i as int + 1).drop_last() =~= sv.take(i as int));
            assert(sv.take(i as int + 1).last() == sv[i as int]);
            assert(views_of(buckets@[p as int]@) =~= views_of(pre).push(sv[i as int]));
            assert forall|q: int| 0 <= q < n_reduce implies views_of((#[trigger] buckets@[q])@)
                == restrict(sv.take(i as int + 1), q, n_reduce as int) by {
                if q == p {
                    assert(spec_partition(sv[i as int].0, n_reduce as int) == p);
                } else {
                    assert(spec_partition(sv[i as int].0, n_reduce as int) != q);
                }
            }
        }
        i = i + 1;
    }
    proof {
        assert(sv.take(sorted@.len() as int) =~= sv);
    }
    let mut files: Vec<FileOutput> = Vec::new();
    let mut names: Vec<String> = Vec::new();
    let mut o: usize = 0;
    while o < n_reduce
        invariant
            o <= n_reduce,
            n_reduce >= 1,
            files@.len() == o,
            names@.len() == o,
            buckets@.len() == n_reduce,
            sv == views_of(sorted@),
            sv == sorted_of(kv_views),
            forall|q: int|
                0 <= q < n_reduce ==> views_of((#[trigger] buckets@[q])@) == restrict(
                    sv,
                    q,
                    n_reduce as int,
                ),
            forall|q: int|
                0 <= q < o ==> (#[trigger] files@[q]).name@ == spec_inter_name(task_no as int, q),
            forall|q: int|
                0 <= q < o ==> (#[trigger] files@[q]).contents@ == encode_records(
                    restrict(sv, q, n_reduce as int),
                ),
            forall|q: int|
                0 <= q < o ==> (#[trigger] names@[q])@ == spec_inter_name(task_no as int, q),
        decreases n_reduce - o,
    {
        let nm = inter_name(task_no, o);
        let contents = encode_records_str(&buckets[o]);
        names.push(nm.clone());
        files.push(FileOutput { name: nm, contents });
        o = o + 1;
    }
    MapOutput { files, report: ReportArgs::MapDone { task: filename, intermediates: names } }
}

/// Executes a map task on an input file's contents: runs the user map
/// function and lays out the intermediate files and the report.
pub fn handle_map<M: MapFunc>(
    filename: String,
    contents: String,
    task_no: usize,
    n_reduce: usize,
    mapf: &M,
) -> (r: MapOutput)
    requires
        n_reduce >= 1,
    ensures
        r.files@.len() == n_reduce,
        forall|i: int|
            0 <= i < n_reduce ==> (#[trigger] r.files@[i]).name@ == spec_inter_name(
                task_no as int,
                i,
            ),
        exists|kvs: Seq<KvView>| map_files_match(r.files@, kvs, n_reduce as int),
        r.report matches ReportArgs::MapDone { task, intermediates } && task@ == filename@
            && intermediates@.len() == n_reduce && (forall|i: int|
            0 <= i < n_reduce ==> (#[trigger] intermediates@[i])@ == spec_inter_name(
                task_no as int,
                i,
            )),
{
    let kvs = mapf.call(filename.clone(), contents);
    let ghost kv_views = views_of(kvs@);
    let r = plan_map(kvs, filename, task_no, n_reduce);
    proof {
        assert(map_files_match(r.files@, kv_views, n_reduce as int));
    }
    r
}

/// The concatenation of the record arrays held by a list of
/// intermediate-file texts, or nothing if any text fails to decode.
pub open spec fn decode_all(ss: Seq<Seq<char>>) -> Option<Seq<KvView>>
    decreases ss.len(),
{
    if ss.len() == 0 {
        Some(Seq::empty())
    } else {
        match decode_all(ss.drop_last()) {
            Option::None => None,
            Option::Some(t) => match spec_decode(ss.last()) {
                Option::None => None,
                Option::Some(h) => Some(t + h),
            },
        }
    }
}

proof fn lemma_decode_all_none(ss: Seq<Seq<char>>, i: int)
    requires
        0 <= i < ss.len(),
        spec_decode(ss[i]) is None,
    ensures
        decode_all(ss) is None,
    decreases ss.len(),
{
    if i < ss.len() - 1 {
        assert(ss.drop_last()[i] == ss[i]);
        lemma_decode_all_none(ss.drop_last(), i);
    }
}

/// Decodes every listed intermediate file's contents and concatenates
/// the records, failing exactly when some text is not an encoding.
pub fn read_intermediates(files: &Vec<String>) -> (r: Result<Vec<KeyValue>, CodecError>)
    ensures
        r matches Ok(v) ==> decode_all(strs_view(files@)) == Some(views_of(v@)),
        r is Err ==> decode_all(strs_view(files@)) is None,
{
    let mut res: Vec<KeyValue> = Vec::new();
    let mut i: usize = 0;
    proof {
        assert(strs_view(files@).take(0) =~= Seq::<Seq<char>>::empty());
        assert(views_of(res@) =~= Seq::<KvView>::empty());
    }
    while i < files.len()
        invariant
            i <= files@.len(),
            decode_all(strs_view(files@).take(i as int)) == Some(views_of(res@)),
        decreases files@.len() - i,
    {
        let ghost ssv = strs_view(files@);
        let part = match decode_records_str(files[i].as_str()) {
            Ok(p) => p,
            Err(e) => {
                proof {
                    assert(ssv[i as int] == files@[i as int]@);
                    lemma_decode_all_none(ssv, i as int);
                }
                return Err(e);
            },
        };
        let ghost pre = views_of(res@);
        let ghost pv = views_of(part@);
        let mut tmp = part;
        res.append(&mut tmp);
        proof {
            assert(ssv.take(i as int + 1).drop_last() =~= ssv.take(i as int));
            assert(ssv.take(i as int + 1).last() == ssv[i as int]);
            assert(ssv[i as int] == files@[i as int]@);
            assert(views_of(res@) =~= pre + pv);
        }
        i = i + 1;
    }
    proof {
        assert(strs_view(files@).take(files@.len() as int) =~= strs_view(files@));
    }
    Ok(res)
}

/// Strictly below in the lexicographic order.
pub open spec fn chars_lt(a: Seq<char>, b: Seq<char>) -> bool {
    chars_le(a, b) && a != b
}

proof fn lemma_chars_lt_le_trans(a: Seq<char>, b: Seq<char>, c: Seq<char>)
    requires
        chars_lt(a, b),
        chars_le(b, c),
    ensures
        chars_lt(a, c),
{
    crate::kv::lemma_chars_le_trans(a, b, c);
    if a == c {
        crate::kv::lemma_chars_le_antisym(b, c);
    }
}

/// One run of a reduce task's grouped input: a key and every value
/// collected for it.
pub struct Group {
    pub key: String,
    pub values: Vec<String>,
}

/// The records spelled out by a run: the key paired with each value.
pub open spec fn pair_seq(key: Seq<char>, vals: Seq<Seq<char>>) -> Seq<KvView> {
    vals.map_values(|v: Seq<char>| (key, v))
}

/// The records spelled out by a list of runs, in order.
pub open spec fn groups_flat(gs: Seq<(Seq<char>, Seq<Seq<char>>)>) -> Seq<KvView>
    decreases gs.len(),
{
    if gs.len() == 0 {
        Seq::empty()
    } else {
        groups_flat(gs.drop_last()) + pair_seq(gs.last().0, gs.last().1)
    }
}

pub open spec fn gviews(gs: Seq<Group>) -> Seq<(Seq<char>, Seq<Seq<char>>)> {
    gs.map_values(|g: Group| (g.key@, strs_view(g.values@)))
}

/// Run keys in strictly ascending order: each key occurs in one run.
pub open spec fn keys_ascending(gs: Seq<(Seq<char>, Seq<Seq<char>>)>) -> bool {
    forall|a: int, b: int|
        0 <= a < b < gs.len() ==> chars_lt((#[trigger] gs[a]).0, (#[trigger] gs[b]).0)
}

/// A proper grouping of `kvs`: the runs spell out exactly `kvs`, each
/// run is non-empty, and each key occurs in exactly one run.
pub open spec fn is_grouping(gs: Seq<(Seq<char>, Seq<Seq<char>>)>, kvs: Seq<KvView>) -> bool {
    &&& groups_flat(gs) == kvs
    &&& (forall|g: int| 0 <= g < gs.len() ==> (#[trigger] gs[g]).1.len() >= 1)
    &&& keys_ascending(gs)
}

/// Clusters a sorted record sequence into maximal runs of equal keys.
pub fn group_kvs(kvs: &Vec<KeyValue>) -> (r: Vec<Group>)
    requires
        kvs_sorted(views_of(kvs@)),
    ensures
        is_grouping(gviews(r@), views_of(kvs@)),
{
    let ghost sv = views_of(kvs@);
    let mut groups: Vec<Group> = Vec::new();
    let mut i: usize = 0;
    proof {
        assert(sv.take(0) =~= Seq::<KvView>::empty());
    }
    while i < kvs.len()
        invariant
            i <= kvs@.len(),
            sv == views_of(kvs@),
            kvs_sorted(sv),
            groups_flat(gviews(groups@)) == sv.take(i as int),
            forall|g: int| 0 <= g < groups@.len() ==> (#[trigger] gviews(groups@)[g]).1.len() >= 1,
            keys_ascending(gviews(groups@)),
            groups@.len() > 0 && i < kvs@.len() ==> chars_lt(
                gviews(groups@).last().0,
                sv[i as int].0,
            ),
        decreases kvs@.len() - i,
    {
        let ghost gv0 = gviews(groups@);
        let ghost start = i as int;
        let key = kvs[i].key.clone();
        let mut vals: Vec<String> = Vec::new();
        vals.push(kvs[i].value.clone());
        i = i + 1;
        proof {
            assert(pair_seq(key@, strs_view(vals@)) =~= sv.subrange(start, i as int));
        }
        while i < kvs.len() && kvs[i].key == key
            invariant
                0 <= start < i <= kvs@.len(),
                sv == views_of(kvs@),
                kvs_sorted(sv),
                key@ == sv[start].0,
                vals@.len() == i - start,
                pair_seq(key@, strs_view(vals@)) == sv.subrange(start, i as int),
            decreases kvs@.len() - i,
        {
            let ghost pvals = strs_view(vals@);
            vals.push(kvs[i].value.clone());
            proof {
                assert(strs_view(vals@) =~= pvals.push(sv[i as int].1));
                assert(sv[i as int].0 == key@);
                let np = pair_seq(key@, strs_view(vals@));
                let target = sv.subrange(start, i as int + 1);
                assert(np.len() == i - start + 1);
                assert forall|q: int| 0 <= q < np.len() implies np[q] == target[q] by {
                    assert(np[q] == (key@, strs_view(vals@)[q]));
                    if q < i - start {
                        assert(pair_seq(key@, pvals)[q] == sv.subrange(start, i as int)[q]);
                        assert(pair_seq(key@, pvals)[q] == (key@, pvals[q]));
                        assert(strs_view(vals@)[q] == pvals[q]);
                        assert(target[q] == sv[start + q]);
                    } else {
                        assert(strs_view(vals@)[q] == sv[i as int].1);
                        assert(target[q] == sv[i as int]);
                    }
                }
                assert(np =~= target);
            }
            i = i + 1;
        }
        groups.push(Group { key, values: vals });
        proof {
            let gv1 = gviews(groups@);
            assert(gv1 =~= gv0.push((sv[start].0, strs_view(vals@))));
            assert(gv1.drop_last() =~= gv0);
            assert(groups_flat(gv1) == groups_flat(gv0) + pair_seq(sv[start].0, strs_view(vals@)));
            assert(groups_flat(gv1) =~= sv.take(i as int));
            assert forall|a: int, b: int| 0 <= a < b < gv1.len() implies chars_lt(
                (#[trigger] gv1[a]).0,
                (#[trigger] gv1[b]).0,
            ) by {
                if b == gv1.len() - 1 && gv0.len() > 0 {
                    assert(chars_lt(gv0.last().0, sv[start].0));
                    if a < gv0.len() - 1 {
                        assert(chars_lt(gv0[a].0, gv0.last().0));
                        lemma_chars_lt_le_trans(gv0[a].0, gv0.last().0, sv[start].0);
                    }
                }
            }
            if i < kvs@.len() {
                assert(sv[i as int].0 != key@);
                assert(kv_le(sv[start], sv[i as int]));
                assert(chars_lt(gv1.last().0, sv[i as int].0));
            }
        }
    }
    proof {
        assert(sv.take(kvs@.len() as int) =~= sv);
    }
    groups
}

/// One final-output line: the key, a space, the reduce result, a newline.
pub open spec fn spec_line(key: Seq<char>, result: Seq<char>) -> Seq<char> {
    key + seq![' '] + result + seq!['\n']
}

/// The final-output text for a list of runs and the reduce results
/// computed for them, one line per run.
pub open spec fn spec_render(gs: Seq<(Seq<char>, Seq<Seq<char>>)>, results: Seq<Seq<char>>) -> Seq<
    char,
>
    decreases gs.len(),
{
    if gs.len() == 0 {
        Seq::empty()
    } else {
        spec_render(gs.drop_last(), results.drop_last()) + spec_line(gs.last().0, results.last())
    }
}

/// Everything a reduce task produces: the final file to publish by
/// atomic rename, and the report to send once it is published.
pub struct ReduceOutput {
    pub name: String,
    pub contents: String,
    pub report: ReportArgs,
}

/// Executes a reduce task on the contents of its intermediate files:
/// merges and sorts the records, clusters runs of equal keys, and
/// renders one line per distinct key, keys ascending.
pub fn handle_reduce<R: ReduceFunc>(task_no: usize, files: &Vec<String>, reducef: &R) -> (r:
    Result<ReduceOutput, CodecError>)
    ensures
        r is Err ==> decode_all(strs_view(files@)) is None,
        r matches Ok(out) ==> decode_all(strs_view(files@)) matches Some(all) && out.name@
            == spec_out_name(task_no as int) && out.report == (ReportArgs::ReduceDone {
            id: task_no,
        }) && (exists|gs: Seq<(Seq<char>, Seq<Seq<char>>)>, results: Seq<Seq<char>>|
            is_grouping(gs, sorted_of(all)) && results.len() == gs.len() && out.contents@
                == spec_render(gs, results)),
{
    let kvs = match read_intermediates(files) {
        Ok(v) => v,
        Err(e) => {
            return Err(e);
        },
    };
    let ghost all = views_of(kvs@);
    let sorted = sort_kvs(kvs);
    proof {
        lemma_kv_le_fn_total();
        all.lemma_sort_by_ensures(kv_le_fn());
        assert forall|i: int, j: int| 0 <= i < j < views_of(sorted@).len() implies #[trigger] kv_le_fn()(
            views_of(sorted@)[i],
            views_of(sorted@)[j],
        ) by {
            assert(kv_le(views_of(sorted@)[i], views_of(sorted@)[j]));
        }
        lemma_sorted_unique(views_of(sorted@), sorted_of(all), kv_le_fn());
        assert(views_of(sorted@) == sorted_of(all));
    }
    let groups = group_kvs(&sorted);
    let ghost gsv = gviews(groups@);
    let mut contents = String::new();
    let ghost results = Seq::<Seq<char>>::empty();
    let mut results = Ghost(results);
    let mut g: usize = 0;
    while g < groups.len()
        invariant
            g <= groups@.len(),
            gsv == gviews(groups@),
            results@.len() == g,
            contents@ == spec_render(gsv.take(g as int), results@),
        decreases groups@.len() - g,
    {
        let ghost pre = contents@;
        let grp = &groups[g];
        let res = reducef.call(grp.key.clone(), grp.values.clone());
        contents.append(grp.key.as_str());
        contents.append(" ");
        contents.append(res.as_str());
        contents.append("\n");
        proof {
            reveal_strlit(" ");
            reveal_strlit("\n");
            assert(" "@ =~= seq![' ']);
            assert("\n"@ =~= seq!['\n']);
            let ghost rpre = results@;
            results@ = results@.push(res@);
            assert(gsv.take(g as int + 1).drop_last() =~= gsv.take(g as int));
            assert(results@.drop_last() =~= rpre);
            assert(results@.last() == res@);
            assert(gsv.take(g as int + 1).last() == gsv[g as int]);
            assert(gsv[g as int].0 == grp.key@);
            assert(contents@ =~= spec_render(gsv.take(g as int + 1), results@));
        }
        g = g + 1;
    }
    proof {
        assert(gsv.take(groups@.len() as int) =~= gsv);
    }
    let name = out_name(task_no);
    Ok(ReduceOutput { name, contents, report: ReportArgs::ReduceDone { id: task_no } })
}

/// What the worker loop does next, decided from a task-assignment reply.
pub enum WorkerAction {
    RunMap { filename: String, task_no: usize, n_reduce: usize },
    RunReduce { task_no: usize, intermediates: Vec<String> },
    Pause,
    Finish,
}

/// One decision of the worker loop: finish when told all work is
/// done, run the assigned task, or pause briefly when no task is
/// available yet.
pub fn work_step(reply: RequestReply) -> (r: WorkerAction)
    ensures
        reply.done ==> r == WorkerAction::Finish,
        !reply.done && reply.kind == TaskType::MapTask ==> r == (WorkerAction::RunMap {
            filename: reply.filename,
            task_no: reply.task_no,
            n_reduce: reply.n_reduce,
        }),
        !reply.done && reply.kind == TaskType::ReduceTask ==> r == (WorkerAction::RunReduce {
            task_no: reply.task_no,
            intermediates: reply.intermediates,
        }),
        !reply.done && reply.kind == TaskType::NoTask ==> r == WorkerAction::Pause,
{
    if reply.done {
        return WorkerAction::Finish;
    }
    match reply.kind {
        TaskType::MapTask => WorkerAction::RunMap {
            filename: reply.filename,
            task_no: reply.task_no,
            n_reduce: reply.n_reduce,
        },
        TaskType::ReduceTask => WorkerAction::RunReduce {
            task_no: reply.task_no,
            intermediates: reply.intermediates,
        },
        TaskType::NoTask => WorkerAction::Pause,
    }
}

/// Protocol tolerance: a malformed task-kind integer on the wire is
/// treated as "no task", never as a crash.
pub fn kind_or_default(v: i32) -> (r: TaskType)
    ensures
        v == 0 ==> r == TaskType::NoTask,
        v == 1 ==> r == TaskType::MapTask,
        v == 2 ==> r == TaskType::ReduceTask,
        !(v == 0 || v == 1 || v == 2) ==> r == TaskType::NoTask,
{
    match TaskType::try_from(v) {
        Ok(t) => t,
        Err(_) => TaskType::NoTask,
    }
}

} // verus!
