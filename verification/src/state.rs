//! Reading a named property out of a block state, and packing named
//! property values into one. Fields are laid out in ascending name order,
//! each just wide enough for its allowed values.
use vstd::prelude::*;
use vstd::arithmetic::power2::{pow2, lemma_pow2_pos, lemma_pow2_adds, lemma2_to64, lemma_pow2_strictly_increases};
use vstd::arithmetic::div_mod::{lemma_fundamental_div_mod, lemma_fundamental_div_mod_converse, lemma_mod_multiples_vanish};
use vstd::arithmetic::mul::{lemma_mul_strict_inequality, lemma_mul_inequality, lemma_mul_is_associative};
use vstd::bits::{lemma_u32_shl_is_mul, lemma_u32_shr_is_div, lemma_u32_low_bits_mask_is_mod, lemma_u32_pow2_no_overflow, low_bits_mask};
use crate::types::BlockState;
use crate::registry::{BlockType, StateField, assoc_lookup, assoc_position};
use crate::layout::{layout_ok, index_of_fields, fields_in_word, field_bits, sat_add, lemma_bitlen_bound};

verus! {

/// Position of the first of `values` from `i` on that equals `v`.
pub open spec fn find_from(values: Seq<String>, v: Seq<char>, i: int) -> Option<int>
    decreases values.len() - i,
{
    if i < 0 || i >= values.len() {
        None
    } else if values[i]@ == v {
        Some(i)
    } else {
        find_from(values, v, i + 1)
    }
}

/// Position of the first of `values` that equals `v`.
pub open spec fn first_index(values: Seq<String>, v: Seq<char>) -> Option<int> {
    find_from(values, v, 0)
}

pub proof fn lemma_find_from_range(values: Seq<String>, v: Seq<char>, i: int)
    ensures
        find_from(values, v, i) matches Some(k) ==> 0 <= i <= k < values.len() && values[k]@ == v,
    decreases values.len() - i,
{
    if 0 <= i < values.len() && values[i]@ != v {
        lemma_find_from_range(values, v, i + 1);
    }
}

fn position_of(values: &Vec<String>, v: &String) -> (r: Option<usize>)
    ensures
        match r {
            Some(i) => first_index(values@, v@) == Some(i as int) && i < values@.len(),
            None => first_index(values@, v@) is None,
        },
{
    let mut i: usize = 0;
    while i < values.len()
        invariant
            i <= values@.len(),
            find_from(values@, v@, i as int) == first_index(values@, v@),
        decreases values@.len() - i,
    {
        if values[i] == *v {
            return Some(i);
        }
        i = i + 1;
    }
    None
}

/// The value index a field takes from `props`: the position of the named
/// value among the allowed ones, 0 when the property is missing or its
/// value is not allowed.
pub open spec fn sel_of(f: StateField, props: Seq<(String, String)>) -> nat {
    match assoc_lookup(props, f.name@) {
        Some(v) => match first_index(f.values@, v@) {
            Some(i) => i as nat,
            None => 0,
        },
        None => 0,
    }
}

/// A field's share of a packed state: its value index, cut to the field's
/// width, at the field's offset.
pub open spec fn term(f: StateField, props: Seq<(String, String)>) -> nat {
    if f.bits == 0 {
        0
    } else {
        (sel_of(f, props) % pow2(f.bits as nat)) * pow2(f.offset as nat)
    }
}

/// Sum of the shares of the first `n` fields.
pub open spec fn packed_sum(fields: Seq<StateField>, props: Seq<(String, String)>, n: int) -> nat
    decreases n,
{
    if n <= 0 {
        0
    } else {
        packed_sum(fields, props, n - 1) + term(fields[n - 1], props)
    }
}

/// Where the first `n` fields end.
pub open spec fn end_of(fields: Seq<StateField>, n: int) -> nat {
    if n <= 0 {
        0
    } else {
        (fields[n - 1].offset + fields[n - 1].bits) as nat
    }
}

/// The value index that a state holds for a field, if it names an allowed value.
pub open spec fn field_index(f: StateField, state: BlockState) -> Option<int> {
    if f.bits == 0 {
        if f.values@.len() > 0 { Some(0) } else { None }
    } else {
        let idx = (state as nat / pow2(f.offset as nat)) % pow2(f.bits as nat);
        if idx < f.values@.len() { Some(idx as int) } else { None }
    }
}

pub open spec fn opt_str_view(r: Option<&str>) -> Option<Seq<char>> {
    match r {
        Some(s) => Some(s@),
        None => None,
    }
}

impl BlockType {
    /// `prop_index` names the position of each field.
    pub open spec fn index_wf(&self) -> bool {
        index_of_fields(self.prop_index@, self.state_fields@)
    }

    /// The state layout as `compute_state_layout` builds it.
    pub open spec fn layout_wf(&self) -> bool {
        &&& layout_ok(self.state_fields@)
        &&& self.index_wf()
    }

    /// The value of property `prop` in `state`.
    pub open spec fn spec_prop_value(&self, state: BlockState, prop: Seq<char>) -> Option<Seq<char>> {
        if self.state_fields@.len() == 0 || !self.prop_index@.contains_key(prop) {
            None
        } else {
            let f = self.state_fields@[self.prop_index@[prop] as int];
            match field_index(f, state) {
                Some(i) => Some(f.values@[i]@),
                None => None,
            }
        }
    }

    /// The state that packs `props`: the fields' shares summed, kept to 16 bits.
    pub open spec fn spec_pack_state(&self, props: Seq<(String, String)>) -> nat {
        if self.state_fields@.len() == 0 {
            0
        } else {
            packed_sum(self.state_fields@, props, self.state_fields@.len() as int) % 65536
        }
    }

    /// Decodes property `prop` from `state`; `None` for a property the type
    /// does not have or a value index past its allowed values.
    pub fn state_prop_value(&self, state: BlockState, prop: &str) -> (r: Option<&str>)
        requires
            self.index_wf(),
        ensures
            opt_str_view(r) == self.spec_prop_value(state, prop@),
    {
        if self.state_fields.len() == 0 {
            return None;
        }
        let i = match self.prop_index.get(prop) {
            Some(i) => *i,
            None => return None,
        };
        let f = &self.state_fields[i];
        if f.bits == 0 {
            if f.values.len() > 0 {
                return Some(f.values[0].as_str());
            } else {
                return None;
            }
        }
        let mask: u32 = if f.bits >= 32 {
            u32::MAX
        } else {
            proof {
                lemma_u32_pow2_no_overflow(f.bits as nat);
                lemma_u32_shl_is_mul(1, f.bits);
            }
            (1u32 << f.bits) - 1
        };
        // a field starting past the state's 16 bits reads index 0
        let shifted: u32 = if f.offset >= 32 { 0 } else { (state as u32) >> f.offset };
        let idx: usize = (shifted & mask) as usize;
        proof {
            lemma_pow2_pos(f.offset as nat);
            if f.offset >= 32 {
                lemma2_to64();
                lemma_pow2_strictly_increases(16, f.offset as nat);
                vstd::arithmetic::div_mod::lemma_basic_div(state as int, pow2(f.offset as nat) as int);
            } else {
                lemma_u32_shr_is_div(state as u32, f.offset);
            }
            assert(shifted as nat == state as nat / pow2(f.offset as nat));
            assert(shifted < 65536) by {
                assert((state as u32) as nat / pow2(f.offset as nat) <= state as nat) by {
                    vstd::arithmetic::div_mod::lemma_div_is_ordered_by_denominator(state as int, 1, pow2(f.offset as nat) as int);
                }
            }
            if f.bits >= 32 {
                assert(shifted & 0xffff_ffffu32 == shifted) by (bit_vector);
                lemma2_to64();
                if f.bits > 32 {
                    lemma_pow2_strictly_increases(32, f.bits as nat);
                }
                vstd::arithmetic::div_mod::lemma_small_mod(shifted as nat, pow2(f.bits as nat));
            } else {
                lemma_u32_pow2_no_overflow(f.bits as nat);
                lemma_u32_shl_is_mul(1, f.bits);
                assert(mask == low_bits_mask(f.bits as nat) as u32);
                lemma_u32_low_bits_mask_is_mod(shifted, f.bits as nat);
            }
        }
        if idx < f.values.len() {
            Some(f.values[idx].as_str())
        } else {
            None
        }
    }

    /// Whether property `prop` of `state` is `expect`.
    pub fn state_prop_is_value(&self, state: BlockState, prop: &str, expect: &str) -> (r: bool)
        requires
            self.index_wf(),
        ensures
            r == (self.spec_prop_value(state, prop@) == Some(expect@)),
    {
        match self.state_prop_value(state, prop) {
            Some(v) => {
                let a = v.to_owned();
                let b = expect.to_owned();
                a == b
            },
            None => false,
        }
    }

    /// Packs named property values into a state. A property that is
    /// missing, or names a value that is not allowed, packs as index 0.
    pub fn pack_state(&self, props: &Vec<(String, String)>) -> (r: BlockState)
        requires
            self.layout_wf(),
            fields_in_word(self.state_fields@),
            forall|i: int| 0 <= i < self.state_fields@.len() ==> #[trigger] self.state_fields@[i].bits < 32,
        ensures
            r == self.spec_pack_state(props@),
    {
        if self.state_fields.len() == 0 {
            return 0;
        }
        let ghost fields = self.state_fields@;
        let mut acc: u32 = 0;
        let mut i: usize = 0;
        proof {
            lemma2_to64();
        }
        while i < self.state_fields.len()
            invariant
                fields == self.state_fields@,
                layout_ok(fields),
                fields_in_word(fields),
                forall|k: int| 0 <= k < fields.len() ==> #[trigger] fields[k].bits < 32,
                i <= fields.len(),
                acc == packed_sum(fields, props@, i as int),
                acc < pow2(end_of(fields, i as int)),
                end_of(fields, i as int) <= 32,
            decreases fields.len() - i,
        {
            let f = &self.state_fields[i];
            proof {
                lemma_end_of_is_offset(fields, i as int);
            }
            if f.bits != 0 {
                let sel: usize = match assoc_position(props, f.name.as_str()) {
                    Some(p) => match position_of(&f.values, &props[p].1) {
                        Some(q) => q,
                        None => 0,
                    },
                    None => 0,
                };
                proof {
                    lemma_u32_pow2_no_overflow(f.bits as nat);
                    lemma_bitlen_bound((f.values@.len() - 1) as nat);
                    assert(sel == sel_of(*f, props@));
                    assert(sel < pow2(f.bits as nat));
                }
                let sel32: u32 = sel as u32;
                proof {
                    lemma_u32_shl_is_mul(1, f.bits);
                }
                let mask: u32 = (1u32 << f.bits) - 1;
                let m: u32 = sel32 & mask;
                let part: u32 = m << f.offset;
                proof {
                    let b = f.bits as nat;
                    let o = f.offset as nat;
                    assert(*f == fields[i as int]);
                    assert(fields[i as int].offset + fields[i as int].bits <= 32);
                    lemma_u32_shl_is_mul(1, f.bits);
                    assert(mask == low_bits_mask(b) as u32);
                    lemma_u32_low_bits_mask_is_mod(sel32, b);
                    assert(m == sel_of(*f, props@) % pow2(b));
                    lemma_pow2_pos(o);
                    lemma_pow2_adds(b, o);
                    lemma_mul_strict_inequality(m as int, pow2(b) as int, pow2(o) as int);
                    if b + o < 32 {
                        lemma_pow2_strictly_increases(b + o, 32);
                    }
                    lemma2_to64();
                    assert(m * pow2(o) <= u32::MAX);
                    lemma_u32_shl_is_mul(m, f.offset);
                    lemma_u32_pow2_no_overflow(o);
                    lemma_u32_shl_is_mul(1, f.offset);
                    lemma_or_is_add(acc, m, f.offset);
                    assert(acc as int + m * pow2(o) < pow2(b + o)) by (nonlinear_arith)
                        requires
                            acc < pow2(o),
                            m < pow2(b),
                            pow2(b + o) == pow2(b) * pow2(o),
                    ;
                }
                acc = acc | part;
            }
            i = i + 1;
        }
        (acc % 65536) as u16
    }
}

proof fn lemma_or_is_add(a: u32, m: u32, off: u32)
    requires
        off < 32,
        a < (1u32 << off),
    ensures
        a | (m << off) == a + (m << off),
{
    assert(a | (m << off) == a + (m << off)) by (bit_vector)
        requires
            off < 32,
            a < (1u32 << off),
    ;
}

/// In a consecutive layout within a word, the first `n` fields end where
/// field `n` starts.
pub proof fn lemma_end_of_is_offset(fields: Seq<StateField>, n: int)
    requires
        layout_ok(fields),
        fields_in_word(fields),
        0 <= n < fields.len(),
    ensures
        end_of(fields, n) == fields[n].offset,
{
    if n > 0 {
        let k = n - 1;
        assert(fields[k + 1].offset == sat_add(fields[k].offset as int, fields[k].bits as int));
        assert(fields[n - 1].offset + fields[n - 1].bits <= 32);
    }
}

/// Digit extraction in a mixed radix: below `p` sits `low`, at `p` the digit
/// `s < r`, above `r * p` anything.
proof fn lemma_digit(low: int, s: int, q: int, p: int, r: int)
    requires
        0 <= low < p,
        0 <= s < r,
        q >= 0,
    ensures
        ((low + s * p + q * (r * p)) / p) % r == s,
{
    let x = low + s * p + q * (r * p);
    assert(x == (s + q * r) * p + low) by (nonlinear_arith)
        requires
            x == low + s * p + q * (r * p),
    ;
    lemma_fundamental_div_mod_converse(x, p, s + q * r, low);
    lemma_fundamental_div_mod_converse(s + q * r, r, q, s);
}

/// Bits below `2^w` are all that decide a digit that ends at or below bit `w`.
pub proof fn lemma_digit_below(x: nat, o: nat, b: nat, w: nat)
    requires
        o + b <= w,
    ensures
        ((x % pow2(w)) / pow2(o)) % pow2(b) == (x / pow2(o)) % pow2(b),
{
    let p = pow2(o) as int;
    let bb = pow2(b) as int;
    let rr = pow2((w - o - b) as nat) as int;
    lemma_pow2_pos(o);
    lemma_pow2_pos(b);
    lemma_pow2_pos((w - o - b) as nat);
    lemma_pow2_adds(o, b);
    lemma_pow2_adds(o + b, (w - o - b) as nat);
    let big = pow2(w) as int;
    lemma_pow2_pos(w);
    assert(big == p * bb * rr) by {
        assert(o + b + (w - o - b) == w);
    }
    let q = x as int / big;
    let r = x as int % big;
    lemma_fundamental_div_mod(x as int, big);
    let r1 = r / p;
    let r0 = r % p;
    lemma_fundamental_div_mod(r, p);
    assert(0 <= r0 < p) by {
        vstd::arithmetic::div_mod::lemma_mod_pos_bound(r, p);
    }
    assert(x as int == (q * bb * rr + r1) * p + r0) by (nonlinear_arith)
        requires
            x as int == big * q + r,
            r == p * r1 + r0,
            big == p * bb * rr,
    ;
    lemma_fundamental_div_mod_converse(x as int, p, q * bb * rr + r1, r0);
    assert(q * bb * rr + r1 == bb * (q * rr) + r1) by (nonlinear_arith);
    lemma_mod_multiples_vanish(q * rr, r1, bb);
}

/// The packed fields before field `n` stay below where field `n` starts.
proof fn lemma_packed_sum_bound(fields: Seq<StateField>, props: Seq<(String, String)>, n: int)
    requires
        layout_ok(fields),
        fields_in_word(fields),
        0 <= n <= fields.len(),
    ensures
        packed_sum(fields, props, n) < pow2(end_of(fields, n)),
    decreases n,
{
    if n == 0 {
        lemma2_to64();
    } else {
        let k = n - 1;
        lemma_packed_sum_bound(fields, props, k);
        lemma_end_of_is_offset(fields, k);
        let f = fields[k];
        let o = f.offset as nat;
        let b = f.bits as nat;
        lemma_pow2_pos(o);
        lemma_pow2_pos(b);
        lemma_pow2_adds(b, o);
        let s = sel_of(f, props) % pow2(b);
        assert(s < pow2(b)) by {
            vstd::arithmetic::div_mod::lemma_mod_pos_bound(sel_of(f, props) as int, pow2(b) as int);
        }
        assert(packed_sum(fields, props, k) + s * pow2(o) < pow2(b + o)) by (nonlinear_arith)
            requires
                packed_sum(fields, props, k) < pow2(o),
                s < pow2(b),
                pow2(b + o) == pow2(b) * pow2(o),
        ;
        assert(b + o == end_of(fields, n));
    }
}

/// Where the first `n` fields end grows with `n`.
pub proof fn lemma_end_of_mono(fields: Seq<StateField>, m: int, n: int)
    requires
        layout_ok(fields),
        fields_in_word(fields),
        0 <= m <= n <= fields.len(),
    ensures
        end_of(fields, m) <= end_of(fields, n),
    decreases n - m,
{
    if m < n {
        lemma_end_of_is_offset(fields, n - 1);
        lemma_end_of_mono(fields, m, n - 1);
    }
}

/// The packed fields after field `j` are a multiple of `2^end`, `end` being
/// where field `j` ends.
proof fn lemma_packed_suffix(fields: Seq<StateField>, props: Seq<(String, String)>, j: int, n: int) -> (q: int)
    requires
        layout_ok(fields),
        fields_in_word(fields),
        0 <= j < n <= fields.len(),
    ensures
        q >= 0,
        packed_sum(fields, props, n) == packed_sum(fields, props, j + 1) + q * pow2(end_of(fields, j + 1)),
    decreases n,
{
    let e = end_of(fields, j + 1);
    if n == j + 1 {
        0
    } else {
        let k = n - 1;
        let q0 = lemma_packed_suffix(fields, props, j, k);
        lemma_end_of_is_offset(fields, k);
        lemma_end_of_mono(fields, j + 1, k);
        let f = fields[k];
        let o = f.offset as nat;
        lemma_pow2_pos(f.bits as nat);
        let s: int = if f.bits == 0 { 0 } else { (sel_of(f, props) % pow2(f.bits as nat)) as int };
        assert(s >= 0);
        lemma_pow2_adds((o - e) as nat, e);
        assert(o == (o - e) as nat + e);
        let a = pow2((o - e) as nat) as int;
        let pe = pow2(e) as int;
        assert(pow2(o) == a * pe);
        assert(term(f, props) == s * (a * pe));
        assert(q0 * pe + s * (a * pe) == (q0 + s * a) * pe) by (nonlinear_arith);
        assert(s * a >= 0) by (nonlinear_arith)
            requires
                s >= 0,
                a >= 0,
        ;
        q0 + s * a
    }
}

/// Reading a property back from a packed state gives the value that was
/// packed for it (the named value if allowed, else the first allowed one),
/// for every property whose bits lie within the 16-bit state.
pub proof fn lemma_pack_then_decode(ty: BlockType, props: Seq<(String, String)>, j: int)
    requires
        ty.layout_wf(),
        fields_in_word(ty.state_fields@),
        0 <= j < ty.state_fields@.len(),
        ty.state_fields@[j].offset + ty.state_fields@[j].bits <= 16,
    ensures
        ({
            let f = ty.state_fields@[j];
            ty.spec_prop_value(ty.spec_pack_state(props) as u16, f.name@) == if f.values@.len() == 0 {
                None
            } else {
                Some(f.values@[sel_of(f, props) as int]@)
            }
        }),
        ({
            let f = ty.state_fields@[j];
            assoc_lookup(props, f.name@) matches Some(v) ==> (first_index(f.values@, v@) is Some
                ==> ty.spec_prop_value(ty.spec_pack_state(props) as u16, f.name@) == Some(v@))
        }),
{
    match assoc_lookup(props, ty.state_fields@[j].name@) {
        Some(v) => lemma_find_from_range(ty.state_fields@[j].values@, v@, 0),
        None => {},
    }
    let fields = ty.state_fields@;
    let f = fields[j];
    let n = fields.len() as int;
    assert(ty.prop_index@.contains_key(f.name@) && ty.prop_index@[f.name@] == j);
    let total = packed_sum(fields, props, n);
    let st = total % 65536;
    lemma2_to64();
    assert(st < 65536);
    let state = st as u16;
    assert(state as nat == st);
    assert(f.values@.len() <= pow2(f.bits as nat)) by {
        if f.values@.len() > 1 {
            lemma_bitlen_bound((f.values@.len() - 1) as nat);
        } else {
            lemma_pow2_pos(f.bits as nat);
        }
    }
    let sel = sel_of(f, props);
    assert(sel < f.values@.len() || sel == 0) by {
        match assoc_lookup(props, f.name@) {
            Some(v) => lemma_find_from_range(f.values@, v@, 0),
            None => {},
        }
    }
    if f.bits == 0 {
        lemma2_to64();
        assert(f.values@.len() <= 1);
    } else {
        let o = f.offset as nat;
        let b = f.bits as nat;
        lemma_end_of_is_offset(fields, j);
        lemma_packed_sum_bound(fields, props, j);
        let q = lemma_packed_suffix(fields, props, j, n);
        lemma_pow2_pos(o);
        lemma_pow2_pos(b);
        lemma_pow2_adds(b, o);
        assert(end_of(fields, j + 1) == b + o);
        let s = sel % pow2(b);
        if f.values@.len() > 0 {
            vstd::arithmetic::div_mod::lemma_small_mod(sel, pow2(b));
        } else {
            assert(sel == 0);
            vstd::arithmetic::div_mod::lemma_small_mod(0, pow2(b));
        }
        assert(s == sel);
        assert(pow2(b + o) == pow2(b) * pow2(o));
        assert(total == packed_sum(fields, props, j) + s * pow2(o) + q * (pow2(b) * pow2(o)));
        lemma_digit(packed_sum(fields, props, j) as int, s as int, q, pow2(o) as int, pow2(b) as int);
        lemma_digit_below(total, o, b, 16);
        assert(pow2(16) == 65536);
    }
}

} // verus!
