//! Fixed-width inline string codec.
//!
//! The on-disk format stores each label in a fixed byte slot: the label's
//! characters (one byte each), then zero padding up to the slot's capacity.
//! Reading takes the prefix up to the first zero byte. A label longer than
//! its slot is a reported error, never a silent overrun.
use vstd::prelude::*;

verus! {

/// A label character occupies one byte and is distinct from the zero
/// terminator, so it survives a trip through a fixed slot.
pub open spec fn label_char_ok(c: char) -> bool {
    1 <= c as int <= 255
}

/// A label that fits a slot of `cap` bytes: short enough, and every
/// character encodable as one non-zero byte.
pub open spec fn label_fits(s: Seq<char>, cap: int) -> bool {
    &&& s.len() <= cap
    &&& forall|i: int| 0 <= i < s.len() ==> label_char_ok(#[trigger] s[i])
}

/// Label characters drawn from printable ASCII, as the format intends for
/// labels handed in by a caller.
pub open spec fn label_ascii(s: Seq<char>) -> bool {
    forall|i: int| 0 <= i < s.len() ==> 1 <= (#[trigger] s[i]) as int <= 127
}

/// The encoding of label `s` into a slot of `cap` bytes: its characters,
/// then zeros.
pub open spec fn label_enc(s: Seq<char>, cap: int) -> Seq<u8> {
    Seq::new(
        cap as nat,
        |i: int|
            if i < s.len() {
                s[i] as u8
            } else {
                0u8
            },
    )
}

/// The label stored in slot `b`: the characters before the first zero byte.
pub open spec fn label_dec(b: Seq<u8>) -> Seq<char>
    decreases b.len(),
{
    if b.len() == 0 || b[0] == 0 {
        Seq::empty()
    } else {
        seq![b[0] as char] + label_dec(b.drop_first())
    }
}

/// A slot filled from a fitting label reads back as that label.
pub proof fn lemma_label_round(s: Seq<char>, cap: int)
    requires
        label_fits(s, cap),
    ensures
        label_dec(label_enc(s, cap)) == s,
    decreases s.len(),
{
    let b = label_enc(s, cap);
    if s.len() == 0 {
        if cap == 0 {
            assert(label_dec(b) =~= s);
        } else {
            assert(b[0] == 0);
            assert(label_dec(b) =~= s);
        }
    } else {
        assert(1 <= s[0] as int <= 255);
        assert(b[0] == s[0] as u8);
        assert((s[0] as u8) as char == s[0]);
        assert(b[0] != 0);
        lemma_label_round(s.drop_first(), cap - 1);
        assert(b.drop_first() =~= label_enc(s.drop_first(), cap - 1));
        assert(label_dec(b) =~= seq![s[0]] + s.drop_first());
        assert(seq![s[0]] + s.drop_first() =~= s);
    }
}

/// Characterizes the decoded label of any slot by its first zero byte: if
/// the bytes before position `i` are non-zero and position `i` ends the slot
/// or holds zero, the decoded label is exactly those first `i` bytes as
/// characters.
pub proof fn lemma_label_dec_prefix(b: Seq<u8>, i: int)
    requires
        0 <= i <= b.len(),
        forall|k: int| 0 <= k < i ==> b[k] != 0,
        i == b.len() || b[i] == 0,
    ensures
        label_dec(b) == Seq::new(i as nat, |k: int| b[k] as char),
    decreases i,
{
    if i == 0 {
        assert(label_dec(b) =~= Seq::new(0, |k: int| b[k] as char));
    } else {
        lemma_label_dec_prefix(b.drop_first(), i - 1);
        assert(label_dec(b) =~= seq![b[0] as char] + label_dec(b.drop_first()));
        assert(seq![b[0] as char] + Seq::new((i - 1) as nat, |k: int| b.drop_first()[k] as char)
            =~= Seq::new(i as nat, |k: int| b[k] as char));
    }
}

/// Every character of a decoded label came from a non-zero byte.
pub proof fn lemma_label_dec_chars(b: Seq<u8>)
    ensures
        label_dec(b).len() <= b.len(),
        forall|i: int|
            0 <= i < label_dec(b).len() ==> label_char_ok(#[trigger] label_dec(b)[i]),
    decreases b.len(),
{
    if b.len() == 0 || b[0] == 0 {
    } else {
        lemma_label_dec_chars(b.drop_first());
        assert forall|i: int| 0 <= i < label_dec(b).len() implies label_char_ok(
            #[trigger] label_dec(b)[i],
        ) by {
            if i == 0 {
                assert(label_dec(b)[0] == b[0] as char);
            } else {
                assert(label_dec(b)[i] == label_dec(b.drop_first())[i - 1]);
            }
        }
    }
}

/// Relies on `String::push`: appends exactly the given character.
#[verifier::external_body]
fn push_char(s: &mut String, c: char)
    ensures
        final(s)@ == old(s)@ + seq![c],
{
    s.push(c)
}

/// Writes label `s` into the `cap`-byte slot at `buf[off ..]`: the label's
/// characters, then zero padding, leaving bytes outside the slot alone.
pub fn write_label(buf: &mut Vec<u8>, off: usize, s: &str, cap: usize)
    requires
        off + cap <= old(buf)@.len(),
        label_fits(s@, cap as int),
    ensures
        final(buf)@.len() == old(buf)@.len(),
        forall|k: int|
            0 <= k < old(buf)@.len() && !(off <= k < off + cap) ==> final(buf)@[k] == old(
                buf,
            )@[k],
        forall|j: int| 0 <= j < cap ==> final(buf)@[off + j] == label_enc(s@, cap as int)[j],
{
    let buf_len = buf.len();
    let n = s.unicode_len();
    let mut i: usize = 0;
    while i < n
        invariant
            i <= n,
            n == s@.len(),
            label_fits(s@, cap as int),
            n <= cap,
            off + cap <= buf@.len() && buf@.len() <= usize::MAX,
            buf@.len() == old(buf)@.len(),
            forall|k: int|
                0 <= k < old(buf)@.len() && !(off <= k < off + i) ==> buf@[k] == old(buf)@[k],
            forall|j: int| 0 <= j < i ==> buf@[off + j] == s@[j] as u8,
        decreases n - i,
    {
        let c = s.get_char(i);
        assert(1 <= c as int <= 255);
        buf[off + i] = #[verifier::truncate] (c as u8);
        i = i + 1;
    }
    crate::wire::put_zeros(buf, off + n, cap - n);
    assert forall|j: int| 0 <= j < cap implies final(buf)@[off + j] == label_enc(
        s@,
        cap as int,
    )[j] by {
        if j < n {
        } else {
            assert(final(buf)@[off + j] == 0u8);
        }
    }
}

/// Reads the label out of the `cap`-byte slot at `b[off ..]`.
pub fn read_label(b: &[u8], off: usize, cap: usize) -> (r: String)
    requires
        off + cap <= b@.len(),
    ensures
        r@ == label_dec(b@.subrange(off as int, off + cap)),
        label_fits(r@, cap as int),
{
    let b_len = b.len();
    let ghost slot = b@.subrange(off as int, off + cap);
    let mut r = String::new();
    let mut i: usize = 0;
    while i < cap
        invariant
            i <= cap,
            off + cap <= b@.len() && b@.len() <= usize::MAX,
            slot == b@.subrange(off as int, off + cap),
            forall|k: int| 0 <= k < i ==> slot[k] != 0,
            r@ == Seq::new(i as nat, |k: int| slot[k] as char),
        decreases cap - i,
    {
        let byte = *vstd::slice::slice_index_get(b, off + i);
        assert(byte == slot[i as int]);
        if byte == 0 {
            proof {
                lemma_label_dec_prefix(slot, i as int);
                lemma_label_dec_chars(slot);
            }
            assert(r@ =~= label_dec(slot));
            return r;
        }
        push_char(&mut r, byte as char);
        assert(r@ =~= Seq::new((i + 1) as nat, |k: int| slot[k] as char));
        i = i + 1;
    }
    proof {
        lemma_label_dec_prefix(slot, cap as int);
        lemma_label_dec_chars(slot);
    }
    assert(r@ =~= label_dec(slot));
    r
}

} // verus!
