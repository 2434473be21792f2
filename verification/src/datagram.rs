//! The datagram decoder: one network datagram carries one actuator command
//! as a leading candidate-id byte followed by a structured textual encoding
//! of `{id, control, data, rotation}`.
//!
//! The embedded id field is authoritative; the leading byte is ignored.
//! The text is a fixed-order object such as
//! `{"id":3,"control":"Speed","data":512,"rotation":"Clockwise"}`, with
//! canonical decimal numerals. [`parse_record`] accepts exactly the
//! encodings produced by [`text_of`]: a malformed datagram is reported and
//! discarded, never aborting the loop.

use vstd::prelude::*;

use crate::command::Action;
use crate::command::Command;
use crate::command::Rotation;

verus! {

/// Control mode named by a datagram: position control or speed control.
#[derive(Clone, Copy, PartialEq, Eq, Structural, Debug)]
pub enum Control {
    Position,
    Speed,
}

/// The plain decoded content of a datagram's textual part.
#[derive(Clone, Copy, PartialEq, Eq, Structural, Debug)]
pub struct ServoRecord {
    pub id: u8,
    pub control: Control,
    pub data: u16,
    pub rotation: Rotation,
}

/// Why a datagram was rejected.
#[derive(Clone, Copy, PartialEq, Eq, Structural, Debug)]
pub enum IngestError {
    /// The datagram holds no byte at all, not even the candidate id.
    Empty,
    /// The bytes after the candidate id are not a well-formed encoding.
    Malformed,
}

/// An ASCII decimal digit.
pub open spec fn is_digit(b: u8) -> bool {
    48 <= b <= 57
}

/// The canonical decimal numeral of `n`: no sign, no leading zero.
pub open spec fn dec_rep(n: nat) -> Seq<u8>
    decreases n,
{
    if n < 10 {
        seq![(48 + n) as u8]
    } else {
        dec_rep(n / 10).push((48 + n % 10) as u8)
    }
}

/// The value spelled by a digit string, most significant digit first.
pub open spec fn val_of(d: Seq<u8>) -> int
    decreases d.len(),
{
    if d.len() == 0 {
        0
    } else {
        val_of(d.drop_last()) * 10 + (d.last() - 48)
    }
}

/// A numeral consists of digits, is never empty, and starts with a zero
/// digit only for the number zero itself.
pub proof fn lemma_dec_rep_digits(n: nat)
    ensures
        dec_rep(n).len() >= 1,
        forall|i: int| 0 <= i < dec_rep(n).len() ==> is_digit(#[trigger] dec_rep(n)[i]),
        dec_rep(n)[0] == 48 ==> n == 0,
    decreases n,
{
    if n >= 10 {
        lemma_dec_rep_digits(n / 10);
        assert(forall|i: int|
            0 <= i < dec_rep(n / 10).len() ==> #[trigger] dec_rep(n)[i] == dec_rep(n / 10)[i]);
        assert(dec_rep(n).last() == (48 + n % 10) as u8);
    }
}

/// Reading back the canonical numeral of `n` gives `n`.
pub proof fn lemma_val_dec(n: nat)
    ensures
        val_of(dec_rep(n)) == n,
    decreases n,
{
    if n < 10 {
        assert(dec_rep(n).drop_last() =~= Seq::<u8>::empty());
        assert(val_of(Seq::<u8>::empty()) == 0);
        assert(dec_rep(n).last() == (48 + n) as u8);
        assert(val_of(dec_rep(n)) == val_of(dec_rep(n).drop_last()) * 10 + (dec_rep(n).last()
            - 48));
    } else {
        lemma_val_dec(n / 10);
        assert(dec_rep(n).drop_last() =~= dec_rep(n / 10));
        assert(dec_rep(n).last() == (48 + n % 10) as u8);
        assert(val_of(dec_rep(n)) == val_of(dec_rep(n).drop_last()) * 10 + (dec_rep(n).last()
            - 48));
    }
}

/// A digit string that does not start with the zero digit spells a value
/// of at least one.
pub proof fn lemma_val_pos(d: Seq<u8>)
    requires
        d.len() >= 1,
        forall|i: int| 0 <= i < d.len() ==> is_digit(#[trigger] d[i]),
        d[0] != 48,
    ensures
        val_of(d) >= 1,
    decreases d.len(),
{
    if d.len() == 1 {
        assert(d.drop_last() =~= Seq::<u8>::empty());
        assert(val_of(Seq::<u8>::empty()) == 0);
        assert(d.last() == d[0]);
        assert(val_of(d) == val_of(d.drop_last()) * 10 + (d.last() - 48));
    } else {
        let t = d.drop_last();
        assert(forall|i: int| 0 <= i < t.len() ==> is_digit(#[trigger] t[i]));
        assert(t[0] == d[0]);
        lemma_val_pos(t);
        assert(d.last() >= 48);
    }
}

/// Digit strings are nonnegative values.
pub proof fn lemma_val_nonneg(d: Seq<u8>)
    requires
        forall|i: int| 0 <= i < d.len() ==> is_digit(#[trigger] d[i]),
    ensures
        val_of(d) >= 0,
    decreases d.len(),
{
    if d.len() > 0 {
        let t = d.drop_last();
        assert(forall|i: int| 0 <= i < t.len() ==> is_digit(#[trigger] t[i]));
        lemma_val_nonneg(t);
        assert(d.last() >= 48);
    }
}

/// A canonical digit string (non-empty, no leading zero unless it is `"0"`)
/// is the numeral of its own value.
pub proof fn lemma_canonical(d: Seq<u8>)
    requires
        d.len() >= 1,
        forall|i: int| 0 <= i < d.len() ==> is_digit(#[trigger] d[i]),
        d[0] != 48 || d.len() == 1,
    ensures
        dec_rep(val_of(d) as nat) == d,
    decreases d.len(),
{
    if d.len() == 1 {
        assert(d.drop_last() =~= Seq::<u8>::empty());
        assert(val_of(Seq::<u8>::empty()) == 0);
        assert(d.last() == d[0]);
        assert(val_of(d) == val_of(d.drop_last()) * 10 + (d.last() - 48));
        assert(val_of(d) == d[0] - 48);
        assert(dec_rep((d[0] - 48) as nat) =~= d);
    } else {
        let t = d.drop_last();
        assert(forall|i: int| 0 <= i < t.len() ==> is_digit(#[trigger] t[i]));
        lemma_val_pos(t);
        lemma_canonical(t);
        let v = val_of(d);
        assert(v == val_of(t) * 10 + (d.last() - 48));
        assert(v >= 10);
        assert(v / 10 == val_of(t) && v % 10 == d.last() - 48) by (nonlinear_arith)
            requires
                v == val_of(t) * 10 + (d.last() - 48),
                val_of(t) >= 1,
                48 <= d.last() <= 57,
        ;
        assert(dec_rep(v as nat) =~= d);
    }
}

/// A digit string spells at least as much as any of its prefixes.
pub proof fn lemma_val_prefix_le(d: Seq<u8>, m: int)
    requires
        0 <= m <= d.len(),
        forall|i: int| 0 <= i < d.len() ==> is_digit(#[trigger] d[i]),
    ensures
        val_of(d.take(m)) <= val_of(d),
    decreases d.len(),
{
    if m == d.len() {
        assert(d.take(m) =~= d);
    } else {
        let t = d.drop_last();
        assert(forall|i: int| 0 <= i < t.len() ==> is_digit(#[trigger] t[i]));
        assert(d.take(m) =~= t.take(m));
        lemma_val_prefix_le(t, m);
        lemma_val_nonneg(t);
        assert(d.last() >= 48);
        assert(val_of(d) == val_of(t) * 10 + (d.last() - 48));
        assert(val_of(t) * 10 >= val_of(t)) by (nonlinear_arith)
            requires
                val_of(t) >= 0,
        ;
    }
}

/// A canonical numeral stands at position `i` of `s`, spelling `v` and
/// ending at `j`, with no digit following it.
pub open spec fn dec_at(s: Seq<u8>, i: int, v: u16, j: int) -> bool {
    &&& 0 <= i < j <= s.len()
    &&& s.subrange(i, j) == dec_rep(v as nat)
    &&& (j == s.len() || !is_digit(s[j]))
}

/// At one position of one string, at most one canonical numeral stands.
pub proof fn lemma_dec_at_unique(s: Seq<u8>, i: int, v1: u16, j1: int, v2: u16, j2: int)
    requires
        dec_at(s, i, v1, j1),
        dec_at(s, i, v2, j2),
    ensures
        v1 == v2,
        j1 == j2,
{
    lemma_dec_rep_digits(v1 as nat);
    lemma_dec_rep_digits(v2 as nat);
    if j1 < j2 {
        assert(s[j1] == s.subrange(i, j2)[j1 - i]);
        assert(is_digit(s[j1]));
        assert(false);
    }
    if j2 < j1 {
        assert(s[j2] == s.subrange(i, j1)[j2 - i]);
        assert(is_digit(s[j2]));
        assert(false);
    }
    lemma_val_dec(v1 as nat);
    lemma_val_dec(v2 as nat);
}

/// The opening bytes of the textual object, up to the id value: `{"id":`.
pub open spec fn obj_open() -> Seq<u8> {
    seq![123u8, 34u8, 105u8, 100u8, 34u8, 58u8]
}

/// The bytes between the id value and the control name: `,"control":"`.
pub open spec fn control_key() -> Seq<u8> {
    seq![44u8, 34u8, 99u8, 111u8, 110u8, 116u8, 114u8, 111u8, 108u8, 34u8, 58u8, 34u8]
}

/// The bytes between the control name and the data value: `","data":`.
pub open spec fn data_key() -> Seq<u8> {
    seq![34u8, 44u8, 34u8, 100u8, 97u8, 116u8, 97u8, 34u8, 58u8]
}

/// The bytes between the data value and the rotation name: `,"rotation":"`.
pub open spec fn rotation_key() -> Seq<u8> {
    seq![44u8, 34u8, 114u8, 111u8, 116u8, 97u8, 116u8, 105u8, 111u8, 110u8, 34u8, 58u8, 34u8]
}

/// The closing bytes of the textual object: `"}`.
pub open spec fn obj_close() -> Seq<u8> {
    seq![34u8, 125u8]
}

/// The name of a control mode in the textual encoding.
pub open spec fn control_lit(c: Control) -> Seq<u8> {
    match c {
        Control::Position => seq![80u8, 111u8, 115u8, 105u8, 116u8, 105u8, 111u8, 110u8],
        Control::Speed => seq![83u8, 112u8, 101u8, 101u8, 100u8],
    }
}

/// The name of a rotation sense in the textual encoding.
pub open spec fn rotation_lit(r: Rotation) -> Seq<u8> {
    match r {
        Rotation::Clockwise => seq![67u8, 108u8, 111u8, 99u8, 107u8, 119u8, 105u8, 115u8, 101u8],
        Rotation::CounterClockwise => seq![
            67u8,
            111u8,
            117u8,
            110u8,
            116u8,
            101u8,
            114u8,
            67u8,
            108u8,
            111u8,
            99u8,
            107u8,
            119u8,
            105u8,
            115u8,
            101u8,
        ],
    }
}

/// The canonical textual encoding of a record: fixed key order, canonical
/// numerals, no whitespace.
pub open spec fn text_of(rec: ServoRecord) -> Seq<u8> {
    obj_open() + dec_rep(rec.id as nat) + control_key() + control_lit(rec.control) + data_key()
        + dec_rep(rec.data as nat) + rotation_key() + rotation_lit(rec.rotation) + obj_close()
}

/// The byte literal `{"id":` of the encoding, as runtime bytes.
fn lit_obj_open() -> (v: Vec<u8>)
    ensures
        v@ == obj_open(),
{
    let mut v: Vec<u8> = Vec::new();
    v.push(123);
    v.push(34);
    v.push(105);
    v.push(100);
    v.push(34);
    v.push(58);
    proof {
        assert(v@ =~= obj_open());
    }
    v
}

/// The byte literal `,"control":"` of the encoding, as runtime bytes.
fn lit_control_key() -> (v: Vec<u8>)
    ensures
        v@ == control_key(),
{
    let mut v: Vec<u8> = Vec::new();
    v.push(44);
    v.push(34);
    v.push(99);
    v.push(111);
    v.push(110);
    v.push(116);
    v.push(114);
    v.push(111);
    v.push(108);
    v.push(34);
    v.push(58);
    v.push(34);
    proof {
        assert(v@ =~= control_key());
    }
    v
}

/// The byte literal `","data":` of the encoding, as runtime bytes.
fn lit_data_key() -> (v: Vec<u8>)
    ensures
        v@ == data_key(),
{
    let mut v: Vec<u8> = Vec::new();
    v.push(34);
    v.push(44);
    v.push(34);
    v.push(100);
    v.push(97);
    v.push(116);
    v.push(97);
    v.push(34);
    v.push(58);
    proof {
        assert(v@ =~= data_key());
    }
    v
}

/// The byte literal `,"rotation":"` of the encoding, as runtime bytes.
fn lit_rotation_key() -> (v: Vec<u8>)
    ensures
        v@ == rotation_key(),
{
    let mut v: Vec<u8> = Vec::new();
    v.push(44);
    v.push(34);
    v.push(114);
    v.push(111);
    v.push(116);
    v.push(97);
    v.push(116);
    v.push(105);
    v.push(111);
    v.push(110);
    v.push(34);
    v.push(58);
    v.push(34);
    proof {
        assert(v@ =~= rotation_key());
    }
    v
}

/// The byte literal `"}` of the encoding, as runtime bytes.
fn lit_obj_close() -> (v: Vec<u8>)
    ensures
        v@ == obj_close(),
{
    let mut v: Vec<u8> = Vec::new();
    v.push(34);
    v.push(125);
    proof {
        assert(v@ =~= obj_close());
    }
    v
}

/// The byte literal `Position` of the encoding, as runtime bytes.
fn lit_position_lit() -> (v: Vec<u8>)
    ensures
        v@ == control_lit(Control::Position),
{
    let mut v: Vec<u8> = Vec::new();
    v.push(80);
    v.push(111);
    v.push(115);
    v.push(105);
    v.push(116);
    v.push(105);
    v.push(111);
    v.push(110);
    proof {
        assert(v@ =~= control_lit(Control::Position));
    }
    v
}

/// The byte literal `Speed` of the encoding, as runtime bytes.
fn lit_speed_lit() -> (v: Vec<u8>)
    ensures
        v@ == control_lit(Control::Speed),
{
    let mut v: Vec<u8> = Vec::new();
    v.push(83);
    v.push(112);
    v.push(101);
    v.push(101);
    v.push(100);
    proof {
        assert(v@ =~= control_lit(Control::Speed));
    }
    v
}

/// The byte literal `Clockwise` of the encoding, as runtime bytes.
fn lit_clockwise_lit() -> (v: Vec<u8>)
    ensures
        v@ == rotation_lit(Rotation::Clockwise),
{
    let mut v: Vec<u8> = Vec::new();
    v.push(67);
    v.push(108);
    v.push(111);
    v.push(99);
    v.push(107);
    v.push(119);
    v.push(105);
    v.push(115);
    v.push(101);
    proof {
        assert(v@ =~= rotation_lit(Rotation::Clockwise));
    }
    v
}

/// The byte literal `CounterClockwise` of the encoding, as runtime bytes.
fn lit_counter_clockwise_lit() -> (v: Vec<u8>)
    ensures
        v@ == rotation_lit(Rotation::CounterClockwise),
{
    let mut v: Vec<u8> = Vec::new();
    v.push(67);
    v.push(111);
    v.push(117);
    v.push(110);
    v.push(116);
    v.push(101);
    v.push(114);
    v.push(67);
    v.push(108);
    v.push(111);
    v.push(99);
    v.push(107);
    v.push(119);
    v.push(105);
    v.push(115);
    v.push(101);
    proof {
        assert(v@ =~= rotation_lit(Rotation::CounterClockwise));
    }
    v
}

/// Where the id numeral ends: the start of the control key.
pub open spec fn pos_ctrl_key(rec: ServoRecord) -> int {
    6 + dec_rep(rec.id as nat).len() as int
}

/// Where the control name starts.
pub open spec fn pos_ctrl(rec: ServoRecord) -> int {
    pos_ctrl_key(rec) + 12
}

/// Where the data key starts.
pub open spec fn pos_data_key(rec: ServoRecord) -> int {
    pos_ctrl(rec) + control_lit(rec.control).len() as int
}

/// Where the data numeral starts.
pub open spec fn pos_data(rec: ServoRecord) -> int {
    pos_data_key(rec) + 9
}

/// Where the data numeral ends: the start of the rotation key.
pub open spec fn pos_rot_key(rec: ServoRecord) -> int {
    pos_data(rec) + dec_rep(rec.data as nat).len() as int
}

/// Where the rotation name starts.
pub open spec fn pos_rot(rec: ServoRecord) -> int {
    pos_rot_key(rec) + 13
}

/// Where the closing bytes start.
pub open spec fn pos_close(rec: ServoRecord) -> int {
    pos_rot(rec) + rotation_lit(rec.rotation).len() as int
}

/// Anatomy of an encoding: each key, name and numeral of `text_of(rec)`
/// stands at its computed position, the numerals canonically and followed
/// by a non-digit.
#[verifier::rlimit(100)]
pub proof fn lemma_text_structure(rec: ServoRecord)
    ensures
        text_of(rec).len() == pos_close(rec) + 2,
        text_of(rec).subrange(0, 6) == obj_open(),
        dec_at(text_of(rec), 6, rec.id as u16, pos_ctrl_key(rec)),
        text_of(rec).subrange(pos_ctrl_key(rec), pos_ctrl(rec)) == control_key(),
        text_of(rec).subrange(pos_ctrl(rec), pos_data_key(rec)) == control_lit(rec.control),
        text_of(rec).subrange(pos_data_key(rec), pos_data(rec)) == data_key(),
        dec_at(text_of(rec), pos_data(rec), rec.data, pos_rot_key(rec)),
        text_of(rec).subrange(pos_rot_key(rec), pos_rot(rec)) == rotation_key(),
        text_of(rec).subrange(pos_rot(rec), pos_close(rec)) == rotation_lit(rec.rotation),
        text_of(rec).subrange(pos_close(rec), pos_close(rec) + 2) == obj_close(),
{
    let t = text_of(rec);
    lemma_dec_rep_digits(rec.id as nat);
    lemma_dec_rep_digits(rec.data as nat);
    assert(t.subrange(0, 6) =~= obj_open());
    assert(t.subrange(6, pos_ctrl_key(rec)) =~= dec_rep(rec.id as nat));
    assert(t.subrange(pos_ctrl_key(rec), pos_ctrl(rec)) =~= control_key());
    assert(t.subrange(pos_ctrl(rec), pos_data_key(rec)) =~= control_lit(rec.control));
    assert(t.subrange(pos_data_key(rec), pos_data(rec)) =~= data_key());
    assert(t.subrange(pos_data(rec), pos_rot_key(rec)) =~= dec_rep(rec.data as nat));
    assert(t.subrange(pos_rot_key(rec), pos_rot(rec)) =~= rotation_key());
    assert(t.subrange(pos_rot(rec), pos_close(rec)) =~= rotation_lit(rec.rotation));
    assert(t.subrange(pos_close(rec), pos_close(rec) + 2) =~= obj_close());
    assert(rec.id as u16 as nat == rec.id as nat);
    assert(t[pos_ctrl_key(rec)] == control_key()[0]);
    assert(!is_digit(44));
    assert(t[pos_rot_key(rec)] == rotation_key()[0]);
}

/// Whether a byte is an ASCII decimal digit.
fn byte_digit(b: u8) -> (r: bool)
    ensures
        r == is_digit(b),
{
    48 <= b && b <= 57
}

/// Whether the bytes of `lit` stand in `s` exactly at position `i`.
fn match_lit(s: &[u8], i: usize, lit: &Vec<u8>) -> (r: bool)
    requires
        i <= s@.len(),
    ensures
        r == (i + lit@.len() <= s@.len() && s@.subrange(i as int, i + lit@.len()) == lit@),
{
    if lit.len() > s.len() - i {
        return false;
    }
    let n = lit.len();
    let mut k: usize = 0;
    while k < n
        invariant
            k <= n,
            n == lit@.len(),
            i + n <= s@.len(),
            i + n <= usize::MAX,
            forall|m: int| 0 <= m < k ==> s@[i + m] == lit@[m],
        decreases n - k,
    {
        if s[i + k] != lit[k] {
            proof {
                assert(s@.subrange(i as int, i + lit@.len())[k as int] == s@[i + k]);
            }
            return false;
        }
        k = k + 1;
    }
    proof {
        assert(s@.subrange(i as int, i + lit@.len()) =~= lit@);
    }
    true
}

/// Reads the canonical decimal numeral standing at position `i`, when one
/// stands there and spells a 16-bit value; rejects a leading zero, a
/// non-digit, and any value beyond the 16-bit range.
fn parse_u16(s: &[u8], i: usize) -> (r: Option<(u16, usize)>)
    requires
        i <= s@.len(),
    ensures
        match r {
            Some(p) => dec_at(s@, i as int, p.0, p.1 as int) && i < p.1 <= s@.len(),
            None => forall|v: u16, j: int| !dec_at(s@, i as int, v, j),
        },
{
    let n = s.len();
    if i == n || !byte_digit(s[i]) {
        proof {
            assert forall|v: u16, j: int| !dec_at(s@, i as int, v, j) by {
                if dec_at(s@, i as int, v, j) {
                    lemma_dec_rep_digits(v as nat);
                    assert(s@.subrange(i as int, j)[0] == s@[i as int]);
                    assert(is_digit(s@[i as int]));
                }
            }
        }
        return None;
    }
    if s[i] == 48 {
        if i + 1 < n && byte_digit(s[i + 1]) {
            proof {
                assert forall|v: u16, j: int| !dec_at(s@, i as int, v, j) by {
                    if dec_at(s@, i as int, v, j) {
                        lemma_dec_rep_digits(v as nat);
                        assert(s@.subrange(i as int, j)[0] == s@[i as int]);
                        assert(dec_rep(v as nat)[0] == 48);
                        assert(v as nat == 0);
                        assert(dec_rep(0) =~= seq![48u8]);
                        assert(j == i + 1);
                        assert(is_digit(s@[j]));
                    }
                }
            }
            return None;
        }
        proof {
            assert(dec_rep(0) =~= seq![48u8]);
            assert(s@.subrange(i as int, i + 1) =~= seq![48u8]);
            assert(dec_at(s@, i as int, 0u16, i + 1));
        }
        return Some((0, i + 1));
    }
    let mut acc: u32 = (s[i] - 48) as u32;
    let mut j: usize = i + 1;
    proof {
        assert(s@.subrange(i as int, i + 1).drop_last() =~= Seq::<u8>::empty());
        assert(val_of(Seq::<u8>::empty()) == 0);
        assert(s@.subrange(i as int, i + 1).last() == s@[i as int]);
        assert(val_of(s@.subrange(i as int, i + 1)) == val_of(
            s@.subrange(i as int, i + 1).drop_last(),
        ) * 10 + (s@.subrange(i as int, i + 1).last() - 48));
        assert(val_of(s@.subrange(i as int, i + 1)) == acc);
    }
    while j < n && byte_digit(s[j])
        invariant
            i < j <= n,
            n == s@.len(),
            acc <= 65535,
            s@[i as int] != 48,
            forall|m: int| i <= m < j ==> is_digit(#[trigger] s@[m]),
            val_of(s@.subrange(i as int, j as int)) == acc,
        decreases n - j,
    {
        let d = s[j] - 48;
        let na = acc * 10 + (d as u32);
        proof {
            assert(s@.subrange(i as int, j + 1).drop_last() =~= s@.subrange(i as int, j as int));
            assert(s@.subrange(i as int, j + 1).last() == s@[j as int]);
            assert(val_of(s@.subrange(i as int, j + 1)) == na);
        }
        if na > 65535 {
            proof {
                let p = s@.subrange(i as int, j + 1);
                assert forall|v: u16, jj: int| !dec_at(s@, i as int, v, jj) by {
                    if dec_at(s@, i as int, v, jj) {
                        lemma_dec_rep_digits(v as nat);
                        if jj <= j {
                            assert(is_digit(s@[jj]));
                        } else {
                            let run = s@.subrange(i as int, jj);
                            assert(forall|m: int|
                                0 <= m < run.len() ==> is_digit(#[trigger] run[m]));
                            lemma_val_dec(v as nat);
                            assert(val_of(run) == v as nat);
                            lemma_val_prefix_le(run, j + 1 - i);
                            assert(run.take(j + 1 - i) =~= p);
                            assert(val_of(p) <= v as nat);
                        }
                    }
                }
            }
            return None;
        }
        acc = na;
        j = j + 1;
    }
    proof {
        let p = s@.subrange(i as int, j as int);
        assert(p[0] == s@[i as int]);
        lemma_canonical(p);
        assert(dec_at(s@, i as int, acc as u16, j as int));
    }
    Some((acc as u16, j))
}

/// The first byte of the control name inside an encoding tells the
/// control mode apart.
#[verifier::rlimit(100)]
proof fn lemma_control_first_byte(rec: ServoRecord)
    ensures
        text_of(rec)[pos_ctrl(rec)] == (match rec.control {
            Control::Position => 80u8,
            Control::Speed => 83u8,
        }),
{
    lemma_text_structure(rec);
    let t = text_of(rec);
    assert(t[pos_ctrl(rec)] == t.subrange(pos_ctrl(rec), pos_data_key(rec))[0]);
    match rec.control {
        Control::Position => {
            assert(control_lit(rec.control)[0] == 80);
        },
        Control::Speed => {
            assert(control_lit(rec.control)[0] == 83);
        },
    }
}

/// The second byte of the rotation name inside an encoding tells the
/// rotation sense apart.
#[verifier::rlimit(100)]
proof fn lemma_rotation_second_byte(rec: ServoRecord)
    ensures
        text_of(rec)[pos_rot(rec) + 1] == (match rec.rotation {
            Rotation::Clockwise => 108u8,
            Rotation::CounterClockwise => 111u8,
        }),
{
    lemma_text_structure(rec);
    let t = text_of(rec);
    assert(t[pos_rot(rec) + 1] == t.subrange(pos_rot(rec), pos_close(rec))[1]);
    match rec.rotation {
        Rotation::Clockwise => {
            assert(rotation_lit(rec.rotation)[1] == 108);
        },
        Rotation::CounterClockwise => {
            assert(rotation_lit(rec.rotation)[1] == 111);
        },
    }
}

/// Encodings agreeing up to the control name carry the same control.
#[verifier::rlimit(100)]
proof fn lemma_same_control(r1: ServoRecord, r2: ServoRecord)
    requires
        text_of(r1) == text_of(r2),
        pos_ctrl(r1) == pos_ctrl(r2),
    ensures
        r1.control == r2.control,
{
    lemma_control_first_byte(r1);
    lemma_control_first_byte(r2);
}

/// Encodings agreeing up to the rotation name carry the same rotation.
#[verifier::rlimit(100)]
proof fn lemma_same_rotation(r1: ServoRecord, r2: ServoRecord)
    requires
        text_of(r1) == text_of(r2),
        pos_rot(r1) == pos_rot(r2),
    ensures
        r1.rotation == r2.rotation,
{
    lemma_rotation_second_byte(r1);
    lemma_rotation_second_byte(r2);
}

/// No two distinct records share an encoding, so a decoded datagram
/// stands for exactly one record.
#[verifier::rlimit(100)]
pub proof fn lemma_text_of_injective(r1: ServoRecord, r2: ServoRecord)
    requires
        text_of(r1) == text_of(r2),
    ensures
        r1 == r2,
{
    let s = text_of(r1);
    lemma_text_structure(r1);
    lemma_text_structure(r2);
    lemma_dec_at_unique(s, 6, r1.id as u16, pos_ctrl_key(r1), r2.id as u16, pos_ctrl_key(r2));
    assert(r1.id == r2.id);
    assert(pos_ctrl(r1) == pos_ctrl(r2));
    lemma_same_control(r1, r2);
    assert(pos_data(r1) == pos_data(r2));
    lemma_dec_at_unique(
        s,
        pos_data(r1),
        r1.data,
        pos_rot_key(r1),
        r2.data,
        pos_rot_key(r2),
    );
    assert(r1.data == r2.data);
    assert(pos_rot(r1) == pos_rot(r2));
    lemma_same_rotation(r1, r2);
}

/// If `s` is some record's encoding and a numeral, the control key and a
/// control name have been matched after the opening, those matches align
/// with the record's own anatomy: same id, same control, same positions.
#[verifier::rlimit(100)]
proof fn lemma_align_control(
    s: Seq<u8>,
    rec: ServoRecord,
    idv: u16,
    i2: int,
    control: Control,
    i4: int,
)
    requires
        s == text_of(rec),
        dec_at(s, 6, idv, i2),
        s.subrange(i2, i2 + 12) == control_key(),
        i4 == i2 + 12 + control_lit(control).len(),
        i4 <= s.len(),
        s.subrange(i2 + 12, i4) == control_lit(control),
    ensures
        rec.id as u16 == idv,
        i2 == pos_ctrl_key(rec),
        rec.control == control,
        i4 == pos_data_key(rec),
{
    lemma_text_structure(rec);
    lemma_dec_at_unique(s, 6, idv, i2, rec.id as u16, pos_ctrl_key(rec));
    if control != rec.control {
        lemma_control_first_byte(rec);
        assert(s[i2 + 12] == s.subrange(i2 + 12, i4)[0]);
        match control {
            Control::Position => {
                assert(control_lit(control)[0] == 80);
            },
            Control::Speed => {
                assert(control_lit(control)[0] == 83);
            },
        }
        assert(false);
    }
}

/// Continues [`lemma_align_control`] through the data numeral, the rotation
/// key and a rotation name: same data, same rotation, same close position.
#[verifier::rlimit(100)]
proof fn lemma_align_rotation(
    s: Seq<u8>,
    rec: ServoRecord,
    idv: u16,
    i2: int,
    control: Control,
    i4: int,
    datav: u16,
    i6: int,
    rot: Rotation,
    i8: int,
)
    requires
        s == text_of(rec),
        dec_at(s, 6, idv, i2),
        s.subrange(i2, i2 + 12) == control_key(),
        i4 == i2 + 12 + control_lit(control).len(),
        i4 <= s.len(),
        s.subrange(i2 + 12, i4) == control_lit(control),
        dec_at(s, i4 + 9, datav, i6),
        s.subrange(i6, i6 + 13) == rotation_key(),
        i8 == i6 + 13 + rotation_lit(rot).len(),
        i8 <= s.len(),
        s.subrange(i6 + 13, i8) == rotation_lit(rot),
    ensures
        rec.id as u16 == idv,
        rec.control == control,
        rec.data == datav,
        rec.rotation == rot,
        i8 == pos_close(rec),
        s.len() == i8 + 2,
        s.subrange(i8, i8 + 2) == obj_close(),
{
    lemma_align_control(s, rec, idv, i2, control, i4);
    lemma_text_structure(rec);
    lemma_dec_at_unique(s, i4 + 9, datav, i6, rec.data, pos_rot_key(rec));
    if rot != rec.rotation {
        lemma_rotation_second_byte(rec);
        assert(s[i6 + 14] == s.subrange(i6 + 13, i8)[1]);
        match rot {
            Rotation::Clockwise => {
                assert(rotation_lit(rot)[1] == 108);
            },
            Rotation::CounterClockwise => {
                assert(rotation_lit(rot)[1] == 111);
            },
        }
        assert(false);
    }
}

/// A string that does not open with the object prefix encodes no record.
proof fn lemma_reject_open(s: Seq<u8>)
    requires
        !(6 <= s.len() && s.subrange(0, 6) == obj_open()),
    ensures
        forall|rec: ServoRecord| s != #[trigger] text_of(rec),
{
    assert forall|rec: ServoRecord| s != #[trigger] text_of(rec) by {
        if s == text_of(rec) {
            lemma_text_structure(rec);
        }
    }
}

/// A string with no canonical numeral after the opening encodes no record.
proof fn lemma_reject_id(s: Seq<u8>)
    requires
        forall|v: u16, j: int| !(#[trigger] dec_at(s, 6, v, j)),
    ensures
        forall|rec: ServoRecord| s != #[trigger] text_of(rec),
{
    assert forall|rec: ServoRecord| s != #[trigger] text_of(rec) by {
        if s == text_of(rec) {
            lemma_text_structure(rec);
        }
    }
}

/// A string whose id numeral exceeds a byte encodes no record.
proof fn lemma_reject_id_range(s: Seq<u8>, idv: u16, i2: int)
    requires
        dec_at(s, 6, idv, i2),
        idv > 255,
    ensures
        forall|rec: ServoRecord| s != #[trigger] text_of(rec),
{
    assert forall|rec: ServoRecord| s != #[trigger] text_of(rec) by {
        if s == text_of(rec) {
            lemma_text_structure(rec);
            lemma_dec_at_unique(s, 6, idv, i2, rec.id as u16, pos_ctrl_key(rec));
        }
    }
}

/// A string without the control key after the id encodes no record.
proof fn lemma_reject_control_key(s: Seq<u8>, idv: u16, i2: int)
    requires
        dec_at(s, 6, idv, i2),
        !(i2 + 12 <= s.len() && s.subrange(i2, i2 + 12) == control_key()),
    ensures
        forall|rec: ServoRecord| s != #[trigger] text_of(rec),
{
    assert forall|rec: ServoRecord| s != #[trigger] text_of(rec) by {
        if s == text_of(rec) {
            lemma_text_structure(rec);
            lemma_dec_at_unique(s, 6, idv, i2, rec.id as u16, pos_ctrl_key(rec));
        }
    }
}

/// A string with neither control name after the control key encodes no
/// record.
#[verifier::rlimit(100)]
proof fn lemma_reject_control(s: Seq<u8>, idv: u16, i2: int)
    requires
        dec_at(s, 6, idv, i2),
        i2 + 12 <= s.len(),
        s.subrange(i2, i2 + 12) == control_key(),
        !(i2 + 20 <= s.len() && s.subrange(i2 + 12, i2 + 20) == control_lit(Control::Position)),
        !(i2 + 17 <= s.len() && s.subrange(i2 + 12, i2 + 17) == control_lit(Control::Speed)),
    ensures
        forall|rec: ServoRecord| s != #[trigger] text_of(rec),
{
    assert forall|rec: ServoRecord| s != #[trigger] text_of(rec) by {
        if s == text_of(rec) {
            lemma_text_structure(rec);
            lemma_dec_at_unique(s, 6, idv, i2, rec.id as u16, pos_ctrl_key(rec));
            match rec.control {
                Control::Position => {
                    assert(s.subrange(i2 + 12, i2 + 20) == control_lit(Control::Position));
                },
                Control::Speed => {
                    assert(s.subrange(i2 + 12, i2 + 17) == control_lit(Control::Speed));
                },
            }
        }
    }
}

/// A string without the data key after the control name encodes no record.
#[verifier::rlimit(100)]
proof fn lemma_reject_data_key(s: Seq<u8>, idv: u16, i2: int, control: Control, i4: int)
    requires
        dec_at(s, 6, idv, i2),
        s.subrange(i2, i2 + 12) == control_key(),
        i4 == i2 + 12 + control_lit(control).len(),
        i4 <= s.len(),
        s.subrange(i2 + 12, i4) == control_lit(control),
        !(i4 + 9 <= s.len() && s.subrange(i4, i4 + 9) == data_key()),
    ensures
        forall|rec: ServoRecord| s != #[trigger] text_of(rec),
{
    assert forall|rec: ServoRecord| s != #[trigger] text_of(rec) by {
        if s == text_of(rec) {
            lemma_align_control(s, rec, idv, i2, control, i4);
            lemma_text_structure(rec);
        }
    }
}

/// A string with no canonical numeral after the data key encodes no record.
#[verifier::rlimit(100)]
proof fn lemma_reject_data(s: Seq<u8>, idv: u16, i2: int, control: Control, i4: int)
    requires
        dec_at(s, 6, idv, i2),
        s.subrange(i2, i2 + 12) == control_key(),
        i4 == i2 + 12 + control_lit(control).len(),
        i4 <= s.len(),
        s.subrange(i2 + 12, i4) == control_lit(control),
        forall|v: u16, j: int| !(#[trigger] dec_at(s, i4 + 9, v, j)),
    ensures
        forall|rec: ServoRecord| s != #[trigger] text_of(rec),
{
    assert forall|rec: ServoRecord| s != #[trigger] text_of(rec) by {
        if s == text_of(rec) {
            lemma_align_control(s, rec, idv, i2, control, i4);
            lemma_text_structure(rec);
        }
    }
}

/// A string without the rotation key after the data numeral encodes no
/// record.
#[verifier::rlimit(100)]
proof fn lemma_reject_rotation_key(
    s: Seq<u8>,
    idv: u16,
    i2: int,
    control: Control,
    i4: int,
    datav: u16,
    i6: int,
)
    requires
        dec_at(s, 6, idv, i2),
        s.subrange(i2, i2 + 12) == control_key(),
        i4 == i2 + 12 + control_lit(control).len(),
        i4 <= s.len(),
        s.subrange(i2 + 12, i4) == control_lit(control),
        dec_at(s, i4 + 9, datav, i6),
        !(i6 + 13 <= s.len() && s.subrange(i6, i6 + 13) == rotation_key()),
    ensures
        forall|rec: ServoRecord| s != #[trigger] text_of(rec),
{
    assert forall|rec: ServoRecord| s != #[trigger] text_of(rec) by {
        if s == text_of(rec) {
            lemma_align_control(s, rec, idv, i2, control, i4);
            lemma_text_structure(rec);
            lemma_dec_at_unique(s, i4 + 9, datav, i6, rec.data, pos_rot_key(rec));
        }
    }
}

/// A string with neither rotation name after the rotation key encodes no
/// record.
#[verifier::rlimit(100)]
proof fn lemma_reject_rotation(
    s: Seq<u8>,
    idv: u16,
    i2: int,
    control: Control,
    i4: int,
    datav: u16,
    i6: int,
)
    requires
        dec_at(s, 6, idv, i2),
        s.subrange(i2, i2 + 12) == control_key(),
        i4 == i2 + 12 + control_lit(control).len(),
        i4 <= s.len(),
        s.subrange(i2 + 12, i4) == control_lit(control),
        dec_at(s, i4 + 9, datav, i6),
        i6 + 13 <= s.len(),
        s.subrange(i6, i6 + 13) == rotation_key(),
        !(i6 + 22 <= s.len() && s.subrange(i6 + 13, i6 + 22) == rotation_lit(
            Rotation::Clockwise,
        )),
        !(i6 + 29 <= s.len() && s.subrange(i6 + 13, i6 + 29) == rotation_lit(
            Rotation::CounterClockwise,
        )),
    ensures
        forall|rec: ServoRecord| s != #[trigger] text_of(rec),
{
    assert forall|rec: ServoRecord| s != #[trigger] text_of(rec) by {
        if s == text_of(rec) {
            lemma_align_control(s, rec, idv, i2, control, i4);
            lemma_text_structure(rec);
            lemma_dec_at_unique(s, i4 + 9, datav, i6, rec.data, pos_rot_key(rec));
            match rec.rotation {
                Rotation::Clockwise => {
                    assert(s.subrange(i6 + 13, i6 + 22) == rotation_lit(Rotation::Clockwise));
                },
                Rotation::CounterClockwise => {
                    assert(s.subrange(i6 + 13, i6 + 29) == rotation_lit(
                        Rotation::CounterClockwise,
                    ));
                },
            }
        }
    }
}

/// A string that does not end in the closing bytes right after the
/// rotation name encodes no record.
#[verifier::rlimit(100)]
proof fn lemma_reject_close(
    s: Seq<u8>,
    idv: u16,
    i2: int,
    control: Control,
    i4: int,
    datav: u16,
    i6: int,
    rot: Rotation,
    i8: int,
)
    requires
        dec_at(s, 6, idv, i2),
        s.subrange(i2, i2 + 12) == control_key(),
        i4 == i2 + 12 + control_lit(control).len(),
        i4 <= s.len(),
        s.subrange(i2 + 12, i4) == control_lit(control),
        dec_at(s, i4 + 9, datav, i6),
        s.subrange(i6, i6 + 13) == rotation_key(),
        i8 == i6 + 13 + rotation_lit(rot).len(),
        i8 <= s.len(),
        s.subrange(i6 + 13, i8) == rotation_lit(rot),
        !(i8 + 2 <= s.len() && s.subrange(i8, i8 + 2) == obj_close() && s.len() == i8 + 2),
    ensures
        forall|rec: ServoRecord| s != #[trigger] text_of(rec),
{
    assert forall|rec: ServoRecord| s != #[trigger] text_of(rec) by {
        if s == text_of(rec) {
            lemma_align_rotation(s, rec, idv, i2, control, i4, datav, i6, rot, i8);
        }
    }
}


/// Reads the textual encoding of one record, accepting exactly the strings
/// that [`text_of`] produces and reporting every other string as malformed.
#[verifier::rlimit(100)]
pub fn parse_record(s: &[u8]) -> (r: Option<ServoRecord>)
    ensures
        match r {
            Some(rec) => s@ == text_of(rec),
            None => forall|rec: ServoRecord| s@ != #[trigger] text_of(rec),
        },
{
    let n = s.len();
    proof {
        assert(n == s@.len());
    }
    let l_open = lit_obj_open();
    if !match_lit(s, 0, &l_open) {
        proof {
            lemma_reject_open(s@);
        }
        return None;
    }
    let idv: u16;
    let i2: usize;
    match parse_u16(s, 6) {
        Some(p) => {
            idv = p.0;
            i2 = p.1;
        },
        None => {
            proof {
                lemma_reject_id(s@);
            }
            return None;
        },
    }
    if idv > 255 {
        proof {
            lemma_reject_id_range(s@, idv, i2 as int);
        }
        return None;
    }
    let l_ck = lit_control_key();
    if !match_lit(s, i2, &l_ck) {
        proof {
            lemma_reject_control_key(s@, idv, i2 as int);
        }
        return None;
    }
    let i3 = i2 + 12;
    let l_pos = lit_position_lit();
    let l_spd = lit_speed_lit();
    let control: Control;
    let i4: usize;
    if match_lit(s, i3, &l_pos) {
        control = Control::Position;
        i4 = i3 + 8;
    } else if match_lit(s, i3, &l_spd) {
        control = Control::Speed;
        i4 = i3 + 5;
    } else {
        proof {
            lemma_reject_control(s@, idv, i2 as int);
        }
        return None;
    }
    let l_dk = lit_data_key();
    if !match_lit(s, i4, &l_dk) {
        proof {
            lemma_reject_data_key(s@, idv, i2 as int, control, i4 as int);
        }
        return None;
    }
    let i5 = i4 + 9;
    let datav: u16;
    let i6: usize;
    match parse_u16(s, i5) {
        Some(p) => {
            datav = p.0;
            i6 = p.1;
        },
        None => {
            proof {
                lemma_reject_data(s@, idv, i2 as int, control, i4 as int);
            }
            return None;
        },
    }
    let l_rk = lit_rotation_key();
    if !match_lit(s, i6, &l_rk) {
        proof {
            lemma_reject_rotation_key(s@, idv, i2 as int, control, i4 as int, datav, i6 as int);
        }
        return None;
    }
    let i7 = i6 + 13;
    let l_cw = lit_clockwise_lit();
    let l_ccw = lit_counter_clockwise_lit();
    let rot: Rotation;
    let i8: usize;
    if match_lit(s, i7, &l_cw) {
        rot = Rotation::Clockwise;
        i8 = i7 + 9;
    } else if match_lit(s, i7, &l_ccw) {
        rot = Rotation::CounterClockwise;
        i8 = i7 + 16;
    } else {
        proof {
            lemma_reject_rotation(s@, idv, i2 as int, control, i4 as int, datav, i6 as int);
        }
        return None;
    }
    let l_close = lit_obj_close();
    let close_ok = match_lit(s, i8, &l_close);
    if !close_ok || i8 + 2 != n {
        proof {
            lemma_reject_close(
                s@,
                idv,
                i2 as int,
                control,
                i4 as int,
                datav,
                i6 as int,
                rot,
                i8 as int,
            );
        }
        return None;
    }
    let rb = ServoRecord { id: idv as u8, control, data: datav, rotation: rot };
    proof {
        assert(rb.id as nat == idv as nat);
        match control {
            Control::Position => {
                assert(control_lit(rb.control).len() == 8);
            },
            Control::Speed => {
                assert(control_lit(rb.control).len() == 5);
            },
        }
        match rot {
            Rotation::Clockwise => {
                assert(rotation_lit(rb.rotation).len() == 9);
            },
            Rotation::CounterClockwise => {
                assert(rotation_lit(rb.rotation).len() == 16);
            },
        }
        lemma_parse_assembles(s@, rb, i2 as int, i4 as int, i6 as int, i8 as int);
    }
    Some(rb)
}

/// A string carrying every piece of a record's anatomy at consecutive
/// positions, and nothing after the close, is that record's encoding.
#[verifier::rlimit(100)]
proof fn lemma_parse_assembles(s: Seq<u8>, rb: ServoRecord, i2: int, i4: int, i6: int, i8: int)
    requires
        s.subrange(0, 6) == obj_open(),
        dec_at(s, 6, rb.id as u16, i2),
        i2 + 12 <= s.len(),
        s.subrange(i2, i2 + 12) == control_key(),
        i4 == i2 + 12 + control_lit(rb.control).len(),
        i4 <= s.len(),
        s.subrange(i2 + 12, i4) == control_lit(rb.control),
        i4 + 9 <= s.len(),
        s.subrange(i4, i4 + 9) == data_key(),
        dec_at(s, i4 + 9, rb.data, i6),
        i6 + 13 <= s.len(),
        s.subrange(i6, i6 + 13) == rotation_key(),
        i8 == i6 + 13 + rotation_lit(rb.rotation).len(),
        i8 <= s.len(),
        s.subrange(i6 + 13, i8) == rotation_lit(rb.rotation),
        i8 + 2 <= s.len(),
        s.subrange(i8, i8 + 2) == obj_close(),
        s.len() == i8 + 2,
    ensures
        s == text_of(rb),
{
    lemma_text_structure(rb);
    let t = text_of(rb);
    let i3 = i2 + 12;
    let i5 = i4 + 9;
    let i7 = i6 + 13;
    assert(s.subrange(6, i2) == dec_rep(rb.id as nat));
    assert(pos_ctrl_key(rb) == i2);
    assert(s.subrange(i5, i6) == dec_rep(rb.data as nat));
    assert(pos_rot_key(rb) == i6);
    assert(pos_close(rb) == i8);
    assert(t.len() == s.len());
    assert forall|n: int| 0 <= n < s.len() implies s[n] == t[n] by {
        if n < 6 {
            assert(s[n] == s.subrange(0, 6)[n]);
            assert(t[n] == t.subrange(0, 6)[n]);
        } else if n < i2 {
            assert(s[n] == s.subrange(6, i2)[n - 6]);
            assert(t[n] == t.subrange(6, pos_ctrl_key(rb))[n - 6]);
        } else if n < i3 {
            assert(s[n] == s.subrange(i2, i2 + 12)[n - i2]);
            assert(t[n] == t.subrange(pos_ctrl_key(rb), pos_ctrl(rb))[n - i2]);
        } else if n < i4 {
            assert(s[n] == s.subrange(i3, i4)[n - i3]);
            assert(t[n] == t.subrange(pos_ctrl(rb), pos_data_key(rb))[n - i3]);
        } else if n < i5 {
            assert(s[n] == s.subrange(i4, i4 + 9)[n - i4]);
            assert(t[n] == t.subrange(pos_data_key(rb), pos_data(rb))[n - i4]);
        } else if n < i6 {
            assert(s[n] == s.subrange(i5, i6)[n - i5]);
            assert(t[n] == t.subrange(pos_data(rb), pos_rot_key(rb))[n - i5]);
        } else if n < i7 {
            assert(s[n] == s.subrange(i6, i6 + 13)[n - i6]);
            assert(t[n] == t.subrange(pos_rot_key(rb), pos_rot(rb))[n - i6]);
        } else if n < i8 {
            assert(s[n] == s.subrange(i7, i8)[n - i7]);
            assert(t[n] == t.subrange(pos_rot(rb), pos_close(rb))[n - i7]);
        } else {
            assert(s[n] == s.subrange(i8, i8 + 2)[n - i8]);
            assert(t[n] == t.subrange(pos_close(rb), pos_close(rb) + 2)[n - i8]);
        }
    }
    assert(s =~= t);
}

/// The command a decoded record stands for: the embedded id is
/// authoritative, the rotation matters only under speed control.
pub open spec fn command_of(rec: ServoRecord) -> Command {
    match rec.control {
        Control::Position => Command { actuator_id: rec.id, action: Action::Position(rec.data) },
        Control::Speed => Command {
            actuator_id: rec.id,
            action: Action::Speed(rec.data, rec.rotation),
        },
    }
}

/// Decodes one datagram: byte zero is the candidate actuator id (ignored in
/// favour of the embedded id field), the rest the textual record. A
/// malformed datagram is reported as an error and discarded — decoding
/// never panics, so one bad datagram cannot stop the loop.
pub fn decode_datagram(d: &[u8]) -> (r: Result<Command, IngestError>)
    ensures
        match r {
            Ok(c) => d@.len() >= 1 && (exists|rec: ServoRecord|
                d@.skip(1) == #[trigger] text_of(rec) && c == command_of(rec)),
            Err(e) => match e {
                IngestError::Empty => d@.len() == 0,
                IngestError::Malformed => d@.len() >= 1 && (forall|rec: ServoRecord|
                    d@.skip(1) != #[trigger] text_of(rec)),
            },
        },
{
    if d.len() == 0 {
        return Err(IngestError::Empty);
    }
    let body = &d[1..d.len()];
    proof {
        assert(body@ =~= d@.skip(1));
    }
    match parse_record(body) {
        Some(rec) => {
            let c = match rec.control {
                Control::Position => Command {
                    actuator_id: rec.id,
                    action: Action::Position(rec.data),
                },
                Control::Speed => Command {
                    actuator_id: rec.id,
                    action: Action::Speed(rec.data, rec.rotation),
                },
            };
            proof {
                assert(d@.skip(1) == text_of(rec) && c == command_of(rec));
            }
            Ok(c)
        },
        None => Err(IngestError::Malformed),
    }
}

} // verus!
