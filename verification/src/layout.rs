//! Block state layout: each property of a block's state schema gets just
//! enough bits to number its allowed values; properties are laid out in
//! ascending name order starting at bit 0.
use vstd::prelude::*;
use vstd::hash_map::StringHashMap;
use crate::registry::{StateField, assoc_lookup, lemma_assoc_lookup_step};
use crate::strorder::{seq_lt, str_less, lemma_seq_lt_trans, lemma_seq_lt_total, lemma_seq_lt_asym, lemma_seq_lt_irrefl};

verus! {

/// No key occurs twice in an association list.
pub open spec fn keys_unique<V>(s: Seq<(String, V)>) -> bool {
    forall|a: int, b: int| 0 <= a < s.len() && 0 <= b < s.len() && a != b ==> #[trigger] s[a].0@ != #[trigger] s[b].0@
}

/// `order` lists every index of `s` once, by ascending key.
pub open spec fn sorted_order<V>(s: Seq<(String, V)>, order: Seq<usize>) -> bool {
    &&& order.len() == s.len()
    &&& forall|i: int| 0 <= i < order.len() ==> #[trigger] order[i] < s.len()
    &&& forall|i: int, j: int| 0 <= i < j < order.len() ==> seq_lt(s[#[trigger] order[i] as int].0@, s[#[trigger] order[j] as int].0@)
    &&& forall|k: usize| k < s.len() ==> #[trigger] order.contains(k)
}

fn sorted_key_order<V>(s: &Vec<(String, V)>) -> (order: Vec<usize>)
    requires
        keys_unique(s@),
    ensures
        sorted_order(s@, order@),
{
    let n = s.len();
    let mut order: Vec<usize> = Vec::new();
    let mut k: usize = 0;
    while k < n
        invariant
            n == s@.len(),
            k <= n,
            keys_unique(s@),
            order@.len() == k,
            forall|i: int| 0 <= i < order@.len() ==> #[trigger] order@[i] < k,
            forall|i: int, j: int| 0 <= i < j < order@.len() ==> seq_lt(s@[#[trigger] order@[i] as int].0@, s@[#[trigger] order@[j] as int].0@),
            forall|m: usize| m < k ==> #[trigger] order@.contains(m),
        decreases n - k,
    {
        let mut j: usize = 0;
        while j < order.len() && str_less(s[order[j]].0.as_str(), s[k].0.as_str())
            invariant
                n == s@.len(),
                k < n,
                j <= order@.len(),
                forall|i: int| 0 <= i < order@.len() ==> #[trigger] order@[i] < k,
                forall|i: int| 0 <= i < j ==> seq_lt(s@[#[trigger] order@[i] as int].0@, s@[k as int].0@),
            decreases order@.len() - j,
        {
            j = j + 1;
        }
        let ghost o0 = order@;
        proof {
            if j < o0.len() {
                assert(!seq_lt(s@[o0[j as int] as int].0@, s@[k as int].0@));
                assert(o0[j as int] < k);
                assert(s@[o0[j as int] as int].0@ != s@[k as int].0@);
                lemma_seq_lt_total(s@[o0[j as int] as int].0@, s@[k as int].0@);
            }
        }
        order.insert(j, k);
        proof {
            let o1 = order@;
            assert(o1 =~= o0.subrange(0, j as int).push(k).add(o0.subrange(j as int, o0.len() as int)));
            assert forall|i: int| 0 <= i < o1.len() implies #[trigger] o1[i] < k + 1 by {
                if i < j { assert(o1[i] == o0[i]); } else if i > j { assert(o1[i] == o0[i - 1]); }
            }
            assert forall|a: int, b: int| 0 <= a < b < o1.len() implies seq_lt(s@[#[trigger] o1[a] as int].0@, s@[#[trigger] o1[b] as int].0@) by {
                let ka = s@[k as int].0@;
                if a < j && b < j {
                    assert(o1[a] == o0[a] && o1[b] == o0[b]);
                } else if a < j && b == j {
                    assert(o1[a] == o0[a]);
                } else if a < j && b > j {
                    assert(o1[a] == o0[a] && o1[b] == o0[b - 1]);
                    assert(seq_lt(s@[o0[a] as int].0@, ka));
                    if b - 1 == j as int {
                        lemma_seq_lt_trans(s@[o0[a] as int].0@, ka, s@[o0[b - 1] as int].0@);
                    } else {
                        assert(seq_lt(ka, s@[o0[j as int] as int].0@));
                        assert(seq_lt(s@[o0[j as int] as int].0@, s@[o0[b - 1] as int].0@));
                        lemma_seq_lt_trans(ka, s@[o0[j as int] as int].0@, s@[o0[b - 1] as int].0@);
                        lemma_seq_lt_trans(s@[o0[a] as int].0@, ka, s@[o0[b - 1] as int].0@);
                    }
                } else if a == j && b > j {
                    assert(o1[b] == o0[b - 1]);
                    if b - 1 > j {
                        assert(seq_lt(s@[o0[j as int] as int].0@, s@[o0[b - 1] as int].0@));
                        lemma_seq_lt_trans(ka, s@[o0[j as int] as int].0@, s@[o0[b - 1] as int].0@);
                    }
                } else {
                    assert(a > j);
                    assert(o1[a] == o0[a - 1] && o1[b] == o0[b - 1]);
                }
            }
            assert forall|m: usize| m < k + 1 implies #[trigger] o1.contains(m) by {
                if m == k {
                    assert(o1[j as int] == m);
                } else {
                    assert(o0.contains(m));
                    let i = choose|i: int| 0 <= i < o0.len() && o0[i] == m;
                    if i < j {
                        assert(o1[i] == m);
                    } else {
                        assert(o1[i + 1] == m);
                    }
                }
            }
        }
        k = k + 1;
    }
    order
}


/// Number of binary digits of `m`.
pub open spec fn bitlen(m: nat) -> nat
    decreases m,
{
    if m == 0 { 0 } else { 1 + bitlen(m / 2) }
}

/// Bits needed to number `n` allowed values: none for one value or fewer.
pub open spec fn field_bits(n: nat) -> nat {
    if n <= 1 { 0 } else { bitlen((n - 1) as nat) }
}

pub proof fn lemma_bitlen_bound(m: nat)
    ensures
        m < vstd::arithmetic::power2::pow2(bitlen(m)),
    decreases m,
{
    if m == 0 {
        vstd::arithmetic::power2::lemma2_to64();
    } else {
        lemma_bitlen_bound(m / 2);
        vstd::arithmetic::power2::lemma_pow2_unfold(bitlen(m));
    }
}

/// Numbers below `2^k` need at most `k` bits.
pub proof fn lemma_bitlen_le(m: nat, k: nat)
    requires
        m < vstd::arithmetic::power2::pow2(k),
    ensures
        bitlen(m) <= k,
    decreases k,
{
    if m > 0 {
        if k == 0 {
            vstd::arithmetic::power2::lemma2_to64();
        } else {
            vstd::arithmetic::power2::lemma_pow2_unfold(k);
            lemma_bitlen_le(m / 2, (k - 1) as nat);
        }
    }
}

pub fn field_bits_exec(n: usize) -> (b: u32)
    requires
        n <= u32::MAX,
    ensures
        b == field_bits(n as nat),
        b <= 32,
{
    if n <= 1 {
        return 0;
    }
    let mut m: u32 = (n - 1) as u32;
    let mut b: u32 = 0;
    proof {
        vstd::arithmetic::power2::lemma2_to64();
        lemma_bitlen_le((n - 1) as nat, 32);
    }
    while m > 0
        invariant
            b + bitlen(m as nat) == bitlen((n - 1) as nat),
            bitlen((n - 1) as nat) <= 32,
        decreases m,
    {
        m = m / 2;
        b = b + 1;
    }
    b
}

/// Every field ends within a 32-bit word.
pub open spec fn fields_in_word(fields: Seq<StateField>) -> bool {
    forall|i: int| 0 <= i < fields.len() ==> #[trigger] fields[i].offset + fields[i].bits <= 32
}

/// Offsets run consecutively from 0 (saturating at `u32::MAX`) and each
/// field has the bits its value count needs.
pub open spec fn layout_ok(fields: Seq<StateField>) -> bool {
    &&& forall|i: int| 0 <= i < fields.len() ==> #[trigger] fields[i].bits == field_bits(fields[i].values@.len())
    &&& fields.len() > 0 ==> fields[0].offset == 0
    &&& forall|i: int| 0 <= i < fields.len() - 1 ==> #[trigger] fields[i + 1].offset == sat_add(fields[i].offset as int, fields[i].bits as int)
}

pub open spec fn sat_add(a: int, b: int) -> int {
    if a + b > u32::MAX { u32::MAX as int } else { a + b }
}

/// The layout of a state schema: one field per property, in ascending name
/// order, each holding the property's allowed values.
pub open spec fn layout_of(fields: Seq<StateField>, schema: Seq<(String, Vec<String>)>) -> bool {
    &&& fields.len() == schema.len()
    &&& layout_ok(fields)
    &&& forall|i: int, j: int| 0 <= i < j < fields.len() ==> seq_lt(#[trigger] fields[i].name@, #[trigger] fields[j].name@)
    &&& forall|i: int| 0 <= i < fields.len() ==> ((#[trigger] assoc_lookup(schema, fields[i].name@)) matches Some(v) && v@ == fields[i].values@)
    &&& forall|k: int| 0 <= k < schema.len() ==> exists|i: int| 0 <= i < fields.len() && #[trigger] fields[i].name@ == (#[trigger] schema[k]).0@
}

/// `index` maps each field's name to its position.
pub open spec fn index_of_fields(index: Map<Seq<char>, usize>, fields: Seq<StateField>) -> bool {
    &&& forall|i: int| 0 <= i < fields.len() ==> #[trigger] index.contains_key(fields[i].name@) && index[fields[i].name@] == i
    &&& forall|k: Seq<char>| #[trigger] index.contains_key(k) ==> exists|i: int| 0 <= i < fields.len() && #[trigger] fields[i].name@ == k
}

proof fn lemma_lookup_unique(s: Seq<(String, Vec<String>)>, k: int)
    requires
        keys_unique(s),
        0 <= k < s.len(),
    ensures
        assoc_lookup(s, s[k].0@) == Some(s[k].1),
    decreases s.len(),
{
    if k > 0 {
        assert(s[0].0@ != s[k].0@);
        let t = s.drop_first();
        assert forall|a: int, b: int| 0 <= a < t.len() && 0 <= b < t.len() && a != b implies #[trigger] t[a].0@ != #[trigger] t[b].0@ by {
            assert(t[a] == s[a + 1] && t[b] == s[b + 1]);
        }
        lemma_lookup_unique(t, k - 1);
    }
}

fn clone_strings(v: &Vec<String>) -> (r: Vec<String>)
    ensures
        r@ == v@,
{
    let mut r: Vec<String> = Vec::new();
    let mut i: usize = 0;
    while i < v.len()
        invariant
            i <= v@.len(),
            r@ == v@.take(i as int),
        decreases v@.len() - i,
    {
        r.push(v[i].clone());
        i = i + 1;
        assert(r@ =~= v@.take(i as int));
    }
    assert(v@.take(i as int) =~= v@);
    r
}

/// Lays out a state schema: property names sorted ascending, each given
/// `ceil(log2(value count))` bits at consecutive offsets, and an index from
/// property name to field position.
#[verifier::spinoff_prover]
pub fn compute_state_layout(schema: &Vec<(String, Vec<String>)>) -> (r: (Vec<StateField>, StringHashMap<usize>))
    requires
        keys_unique(schema@),
        forall|k: int| 0 <= k < schema@.len() ==> (#[trigger] schema@[k]).1@.len() <= u32::MAX,
    ensures
        layout_of(r.0@, schema@),
        index_of_fields(r.1@, r.0@),
{
    if schema.len() == 0 {
        return (Vec::new(), StringHashMap::new());
    }
    let order = sorted_key_order(schema);
    let mut fields: Vec<StateField> = Vec::new();
    let mut index: StringHashMap<usize> = StringHashMap::new();
    let mut offset: u32 = 0;
    let mut i: usize = 0;
    while i < order.len()
        invariant
            keys_unique(schema@),
            forall|k: int| 0 <= k < schema@.len() ==> (#[trigger] schema@[k]).1@.len() <= u32::MAX,
            sorted_order(schema@, order@),
            i <= order@.len(),
            fields@.len() == i,
            forall|j: int| 0 <= j < i ==> (#[trigger] fields@[j]).name@ == schema@[order@[j] as int].0@ && fields@[j].values@ == schema@[order@[j] as int].1@,
            layout_ok(fields@),
            i > 0 ==> offset == sat_add(fields@[i - 1].offset as int, fields@[i - 1].bits as int),
            i == 0 ==> offset == 0,
            forall|j: int| 0 <= j < i ==> #[trigger] index@.contains_key(fields@[j].name@) && index@[fields@[j].name@] == j,
            forall|k: Seq<char>| #[trigger] index@.contains_key(k) ==> exists|j: int| 0 <= j < i && #[trigger] fields@[j].name@ == k,
        decreases order@.len() - i,
    {
        let k = order[i];
        let vals = clone_strings(&schema[k].1);
        let bits = field_bits_exec(vals.len());
        let name = schema[k].0.clone();
        let ghost f0 = fields@;
        let ghost ix0 = index@;
        index.insert(schema[k].0.clone(), i);
        fields.push(StateField { name, values: vals, bits, offset });
        proof {
            assert forall|j: int| 0 <= j < i + 1 implies #[trigger] index@.contains_key(fields@[j].name@) && index@[fields@[j].name@] == j by {
                if j < i {
                    assert(fields@[j] == f0[j]);
                    assert(seq_lt(schema@[order@[j] as int].0@, schema@[order@[i as int] as int].0@));
                    lemma_seq_lt_irrefl(schema@[order@[j] as int].0@);
                }
            }
            assert forall|kk: Seq<char>| #[trigger] index@.contains_key(kk) implies exists|j: int| 0 <= j < i + 1 && #[trigger] fields@[j].name@ == kk by {
                if kk == fields@[i as int].name@ {
                } else {
                    assert(ix0.contains_key(kk));
                    let j = choose|j: int| 0 <= j < i && #[trigger] f0[j].name@ == kk;
                    assert(fields@[j] == f0[j]);
                }
            }
            assert forall|j: int| 0 <= j < fields@.len() - 1 implies #[trigger] fields@[j + 1].offset == sat_add(fields@[j].offset as int, fields@[j].bits as int) by {
                if j + 1 < i {
                    assert(fields@[j + 1] == f0[j + 1] && fields@[j] == f0[j]);
                }
            }
            assert forall|j: int| 0 <= j < fields@.len() implies #[trigger] fields@[j].bits == field_bits(fields@[j].values@.len()) by {
                if j < i {
                    assert(fields@[j] == f0[j]);
                }
            }
        }
        offset = offset.saturating_add(bits);
        i = i + 1;
    }
    proof {
        let f = fields@;
        let o = order@;
        assert forall|a: int, b: int| 0 <= a < b < f.len() implies seq_lt(#[trigger] f[a].name@, #[trigger] f[b].name@) by {
            assert(seq_lt(schema@[o[a] as int].0@, schema@[o[b] as int].0@));
        }
        assert forall|a: int| 0 <= a < f.len() implies ((#[trigger] assoc_lookup(schema@, f[a].name@)) matches Some(v) && v@ == f[a].values@) by {
            lemma_lookup_unique(schema@, o[a] as int);
        }
        assert forall|kk: int| 0 <= kk < schema@.len() implies exists|a: int| 0 <= a < f.len() && #[trigger] f[a].name@ == (#[trigger] schema@[kk]).0@ by {
            assert(o.contains(kk as usize));
            let a = choose|a: int| 0 <= a < o.len() && o[a] == kk as usize;
            assert(f[a].name@ == schema@[kk].0@);
        }
        assert(index_of_fields(index@, f));
    }
    (fields, index)
}

} // verus!
