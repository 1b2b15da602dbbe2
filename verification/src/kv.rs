//! The record type produced by map execution and consumed by
//! partitioning and reduce grouping, with its total order.

use vstd::prelude::*;
use vstd::multiset::Multiset;
use vstd::string::StrSliceExecFns;

verus! {

/// One intermediate record: a key together with one value emitted for it.
#[derive(Debug)]
pub struct KeyValue {
    pub key: String,
    pub value: String,
}

/// The mathematical model of a record: its key and value character sequences.
pub type KvView = (Seq<char>, Seq<char>);

impl View for KeyValue {
    type V = KvView;

    open spec fn view(&self) -> KvView {
        (self.key@, self.value@)
    }
}

impl Clone for KeyValue {
    fn clone(&self) -> (r: Self)
        ensures
            r@ == self@,
    {
        KeyValue { key: self.key.clone(), value: self.value.clone() }
    }
}

impl PartialEq for KeyValue {
    fn eq(&self, other: &Self) -> (r: bool)
        ensures
            r == (self@ == other@),
    {
        let keys_eq: bool = self.key == other.key;
        let vals_eq: bool = self.value == other.value;
        keys_eq && vals_eq
    }
}

impl Eq for KeyValue {}

impl vstd::std_specs::cmp::PartialEqSpecImpl for KeyValue {
    open spec fn obeys_eq_spec() -> bool {
        true
    }

    open spec fn eq_spec(&self, other: &Self) -> bool {
        self@ == other@
    }
}

/// The views of a sequence of records.
pub open spec fn views_of(s: Seq<KeyValue>) -> Seq<KvView> {
    s.map_values(|kv: KeyValue| kv@)
}

/// Lexicographic "less than or equal" on character sequences,
/// comparing scalar values position by position.
pub open spec fn chars_le(a: Seq<char>, b: Seq<char>) -> bool
    decreases a.len(),
{
    if a.len() == 0 {
        true
    } else if b.len() == 0 {
        false
    } else if (a[0] as u32) < (b[0] as u32) {
        true
    } else if (a[0] as u32) > (b[0] as u32) {
        false
    } else {
        chars_le(a.drop_first(), b.drop_first())
    }
}

/// The total order on records: by key, then by value.
pub open spec fn kv_le(a: KvView, b: KvView) -> bool {
    if a.0 == b.0 {
        chars_le(a.1, b.1)
    } else {
        chars_le(a.0, b.0) && !chars_le(b.0, a.0)
    }
}

/// A sequence of record views in ascending order of the total order.
pub open spec fn kvs_sorted(s: Seq<KvView>) -> bool {
    forall|i: int, j: int| 0 <= i < j < s.len() ==> kv_le(s[i], s[j])
}

pub proof fn lemma_chars_le_total(a: Seq<char>, b: Seq<char>)
    ensures
        chars_le(a, b) || chars_le(b, a),
    decreases a.len(),
{
    if a.len() == 0 {
    } else if b.len() == 0 {
    } else if (a[0] as u32) == (b[0] as u32) {
        lemma_chars_le_total(a.drop_first(), b.drop_first());
    }
}

pub proof fn lemma_chars_le_antisym(a: Seq<char>, b: Seq<char>)
    requires
        chars_le(a, b),
        chars_le(b, a),
    ensures
        a == b,
    decreases a.len(),
{
    if a.len() == 0 {
        assert(b.len() == 0);
        assert(a =~= b);
    } else {
        assert(b.len() > 0);
        assert((a[0] as u32) == (b[0] as u32));
        vstd::utf8::char_u32_cast(a[0], a[0] as u32);
        vstd::utf8::char_u32_cast(b[0], b[0] as u32);
        assert(a[0] == b[0]);
        lemma_chars_le_antisym(a.drop_first(), b.drop_first());
        assert forall|i: int| 0 <= i < a.len() implies a[i] == b[i] by {
            if i > 0 {
                assert(a[i] == a.drop_first()[i - 1]);
                assert(b[i] == b.drop_first()[i - 1]);
            }
        }
        assert(a =~= b);
    }
}

pub proof fn lemma_chars_le_trans(a: Seq<char>, b: Seq<char>, c: Seq<char>)
    requires
        chars_le(a, b),
        chars_le(b, c),
    ensures
        chars_le(a, c),
    decreases a.len(),
{
    if a.len() == 0 {
    } else {
        assert(b.len() > 0);
        assert(c.len() > 0);
        if (a[0] as u32) == (b[0] as u32) && (b[0] as u32) == (c[0] as u32) {
            lemma_chars_le_trans(a.drop_first(), b.drop_first(), c.drop_first());
        }
    }
}

pub proof fn lemma_kv_le_total(a: KvView, b: KvView)
    ensures
        kv_le(a, b) || kv_le(b, a),
{
    if a.0 == b.0 {
        lemma_chars_le_total(a.1, b.1);
    } else {
        lemma_chars_le_total(a.0, b.0);
        if chars_le(a.0, b.0) && chars_le(b.0, a.0) {
            lemma_chars_le_antisym(a.0, b.0);
        }
    }
}

pub proof fn lemma_kv_le_antisym(a: KvView, b: KvView)
    requires
        kv_le(a, b),
        kv_le(b, a),
    ensures
        a == b,
{
    if a.0 == b.0 {
        lemma_chars_le_antisym(a.1, b.1);
    }
}

pub proof fn lemma_kv_le_trans(a: KvView, b: KvView, c: KvView)
    requires
        kv_le(a, b),
        kv_le(b, c),
    ensures
        kv_le(a, c),
{
    if a.0 == b.0 && b.0 == c.0 {
        lemma_chars_le_trans(a.1, b.1, c.1);
    } else if a.0 == b.0 {
    } else if b.0 == c.0 {
    } else {
        lemma_chars_le_trans(a.0, b.0, c.0);
        if chars_le(c.0, a.0) {
            lemma_chars_le_trans(c.0, a.0, b.0);
            lemma_chars_le_antisym(b.0, c.0);
        }
        if a.0 == c.0 {
            lemma_chars_le_antisym(a.0, b.0);
        }
    }
}

/// Lexicographic comparison of two strings, character by character.
pub fn str_le(a: &str, b: &str) -> (r: bool)
    ensures
        r == chars_le(a@, b@),
{
    let alen = a.unicode_len();
    let blen = b.unicode_len();
    let mut i: usize = 0;
    proof {
        assert(a@.skip(0) =~= a@);
        assert(b@.skip(0) =~= b@);
    }
    loop
        invariant
            i <= alen,
            i <= blen,
            alen == a@.len(),
            blen == b@.len(),
            chars_le(a@, b@) == chars_le(a@.skip(i as int), b@.skip(i as int)),
        decreases alen - i,
    {
        if i >= alen {
            return true;
        }
        if i >= blen {
            return false;
        }
        let ca = a.get_char(i);
        let cb = b.get_char(i);
        if (ca as u32) < (cb as u32) {
            return true;
        }
        if (ca as u32) > (cb as u32) {
            return false;
        }
        proof {
            assert(a@.skip(i as int).drop_first() =~= a@.skip(i as int + 1));
            assert(b@.skip(i as int).drop_first() =~= b@.skip(i as int + 1));
        }
        i = i + 1;
    }
}

/// Decides the record total order, matching `kv_le` exactly.
pub fn kv_le_exec(a: &KeyValue, b: &KeyValue) -> (r: bool)
    ensures
        r == kv_le(a@, b@),
{
    if a.key == b.key {
        str_le(a.value.as_str(), b.value.as_str())
    } else {
        let ab = str_le(a.key.as_str(), b.key.as_str());
        if ab {
            let ba = str_le(b.key.as_str(), a.key.as_str());
            !ba
        } else {
            false
        }
    }
}

proof fn lemma_views_insert(s: Seq<KeyValue>, p: int, x: KeyValue)
    requires
        0 <= p <= s.len(),
    ensures
        views_of(s.insert(p, x)) =~= views_of(s).insert(p, x@),
{
}

proof fn lemma_multiset_insert(s: Seq<KvView>, p: int, x: KvView)
    requires
        0 <= p <= s.len(),
    ensures
        s.insert(p, x).to_multiset() == s.to_multiset().insert(x),
    decreases p,
{
    broadcast use vstd::seq_lib::group_seq_properties;

    if p == 0 {
        assert(s.insert(0, x) =~= seq![x] + s);
        vstd::seq_lib::lemma_multiset_commutative(seq![x], s);
        assert(seq![x].to_multiset() =~= Multiset::empty().insert(x));
        assert((seq![x] + s).to_multiset() =~= s.to_multiset().insert(x));
    } else {
        lemma_multiset_insert(s.drop_first(), p - 1, x);
        assert(s.insert(p, x) =~= seq![s[0]] + s.drop_first().insert(p - 1, x));
        assert(s =~= seq![s[0]] + s.drop_first());
        vstd::seq_lib::lemma_multiset_commutative(seq![s[0]], s.drop_first().insert(p - 1, x));
        vstd::seq_lib::lemma_multiset_commutative(seq![s[0]], s.drop_first());
        assert(s.insert(p, x).to_multiset() =~= s.to_multiset().insert(x));
    }
}

proof fn lemma_sorted_insert(s: Seq<KvView>, p: int, x: KvView)
    requires
        kvs_sorted(s),
        0 <= p <= s.len(),
        forall|k: int| 0 <= k < p ==> kv_le(s[k], x),
        p < s.len() ==> !kv_le(s[p], x),
    ensures
        kvs_sorted(s.insert(p, x)),
{
    s.insert_ensures(p, x);
    let t = s.insert(p, x);
    if p < s.len() {
        lemma_kv_le_total(x, s[p]);
    }
    assert forall|i: int, j: int| 0 <= i < j < t.len() implies kv_le(t[i], t[j]) by {
        if j < p {
        } else if j == p {
            assert(t[i] == s[i]);
            assert(kv_le(s[i], x));
        } else {
            assert(t[j] == s[j - 1]);
            if i == p {
                if p < j - 1 {
                    lemma_kv_le_trans(x, s[p], s[j - 1]);
                }
            } else if i < p {
                if p == j - 1 {
                    lemma_kv_le_trans(s[i], x, s[p]);
                } else {
                    lemma_kv_le_trans(x, s[p], s[j - 1]);
                    lemma_kv_le_trans(s[i], x, s[j - 1]);
                }
            } else {
                assert(t[i] == s[i - 1]);
            }
        }
    }
}

/// The position before the first element that is strictly greater
/// than `x`, within a sorted vector.
fn find_insert_pos(out: &Vec<KeyValue>, x: &KeyValue) -> (p: usize)
    ensures
        p <= out@.len(),
        forall|k: int| 0 <= k < p ==> kv_le(views_of(out@)[k], x@),
        p < out@.len() ==> !kv_le(views_of(out@)[p as int], x@),
{
    let mut p: usize = 0;
    while p < out.len()
        invariant
            p <= out@.len(),
            forall|k: int| 0 <= k < p ==> kv_le(views_of(out@)[k], x@),
        decreases out@.len() - p,
    {
        if !kv_le_exec(&out[p], x) {
            return p;
        }
        p = p + 1;
    }
    p
}

/// Sorts records into ascending order of the record total order.
/// The result holds exactly the input records, rearranged.
pub fn sort_kvs(v: Vec<KeyValue>) -> (r: Vec<KeyValue>)
    ensures
        kvs_sorted(views_of(r@)),
        views_of(r@).to_multiset() == views_of(v@).to_multiset(),
        r@.len() == v@.len(),
{
    broadcast use vstd::seq_lib::group_seq_properties;

    let mut out: Vec<KeyValue> = Vec::new();
    let mut idx: usize = 0;
    while idx < v.len()
        invariant
            idx <= v.len(),
            kvs_sorted(views_of(out@)),
            views_of(out@).to_multiset() == views_of(v@.subrange(0, idx as int)).to_multiset(),
            out@.len() == idx,
        decreases v.len() - idx,
    {
        let x = v[idx].clone();
        let p = find_insert_pos(&out, &x);
        let ghost before = out@;
        let ghost xv = x@;
        proof {
            lemma_sorted_insert(views_of(before), p as int, xv);
            lemma_views_insert(before, p as int, x);
            lemma_multiset_insert(views_of(before), p as int, xv);
        }
        out.insert(p, x);
        proof {
            broadcast use vstd::seq_lib::group_to_multiset_ensures;

            assert(out@ == before.insert(p as int, x));
            assert(views_of(out@).to_multiset() == views_of(before).to_multiset().insert(xv));
            assert(views_of(v@.subrange(0, idx as int + 1)) =~= views_of(
                v@.subrange(0, idx as int),
            ).push(v@[idx as int]@));
            assert(views_of(v@.subrange(0, idx as int + 1)).to_multiset() == views_of(
                v@.subrange(0, idx as int),
            ).to_multiset().insert(v@[idx as int]@));
        }
        idx = idx + 1;
    }
    proof {
        assert(v@.subrange(0, v@.len() as int) =~= v@);
    }
    out
}

} // verus!
