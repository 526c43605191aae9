//! Byte-level framing shared by every codec of the format: terminator-style
//! splitting and joining, line scanning, little-endian integers and UTF-8 text.
use vstd::prelude::*;
use vstd::utf8::*;

verus! {

/// The reserved separator written after every cell and every schema entry.
pub const SEP: u8 = 0x1F;

/// The line terminator written after every column and every footer field.
pub const NL: u8 = 0x0A;

/// The pieces of `b` between occurrences of `t`, in order; there is always at
/// least one piece (the text after the last `t`, possibly empty).
pub open spec fn split_on(b: Seq<u8>, t: u8) -> Seq<Seq<u8>>
    decreases b.len(),
{
    if b.len() == 0 {
        seq![Seq::<u8>::empty()]
    } else {
        let s = split_on(b.drop_last(), t);
        if b.last() == t {
            s.push(Seq::<u8>::empty())
        } else {
            s.update(s.len() - 1, s.last().push(b.last()))
        }
    }
}

/// Every piece followed by one terminator `t`, concatenated.
pub open spec fn join_term(ps: Seq<Seq<u8>>, t: u8) -> Seq<u8>
    decreases ps.len(),
{
    if ps.len() == 0 {
        Seq::<u8>::empty()
    } else {
        join_term(ps.drop_last(), t) + ps.last() + seq![t]
    }
}

/// `p` holds no byte `t`.
pub open spec fn free_of(p: Seq<u8>, t: u8) -> bool {
    forall|i: int| 0 <= i < p.len() ==> p[i] != t
}

/// Every piece of `ps` holds no byte `t`.
pub open spec fn all_free_of(ps: Seq<Seq<u8>>, t: u8) -> bool {
    forall|i: int| 0 <= i < ps.len() ==> free_of(#[trigger] ps[i], t)
}

/// The views of a sequence of byte vectors.
pub open spec fn views(vs: Seq<Vec<u8>>) -> Seq<Seq<u8>> {
    vs.map_values(|v: Vec<u8>| v@)
}

/// The four little-endian bytes of `v`.
pub open spec fn le_bytes(v: u32) -> Seq<u8> {
    seq![
        (v % 256) as u8,
        ((v / 256) % 256) as u8,
        ((v / 65536) % 256) as u8,
        ((v / 16777216) % 256) as u8,
    ]
}

/// The integer that four little-endian bytes at `pos` of `b` denote.
pub open spec fn le_value(b: Seq<u8>, pos: int) -> int {
    b[pos] as int + 256 * (b[pos + 1] as int) + 65536 * (b[pos + 2] as int) + 16777216 * (
    b[pos + 3] as int)
}

/// The first index at or after `start` where `b` holds `t`, or `b.len()` if none.
pub open spec fn find_from(b: Seq<u8>, start: int, t: u8) -> int
    decreases b.len() - start,
{
    if start >= b.len() {
        b.len() as int
    } else if b[start] == t {
        start
    } else {
        find_from(b, start + 1, t)
    }
}

pub proof fn lemma_split_on_nonempty(b: Seq<u8>, t: u8)
    ensures
        split_on(b, t).len() >= 1,
    decreases b.len(),
{
    if b.len() > 0 {
        lemma_split_on_nonempty(b.drop_last(), t);
    }
}

/// Appending a piece free of `t` to text whose split ends in an empty piece
/// replaces that empty piece.
pub proof fn lemma_split_on_extend(a: Seq<u8>, p: Seq<u8>, t: u8)
    requires
        split_on(a, t).last() == Seq::<u8>::empty(),
        free_of(p, t),
    ensures
        split_on(a + p, t) == split_on(a, t).drop_last().push(p),
    decreases p.len(),
{
    lemma_split_on_nonempty(a, t);
    if p.len() == 0 {
        assert(a + p =~= a);
        assert(p =~= Seq::<u8>::empty());
        let s = split_on(a, t);
        assert(s.last() == s[s.len() - 1]);
        assert(split_on(a, t).drop_last().push(p) =~= split_on(a, t));
    } else {
        let q = p.drop_last();
        lemma_split_on_extend(a, q, t);
        assert((a + p).drop_last() =~= a + q);
        assert((a + p).last() == p.last());
        let s = split_on(a + q, t);
        assert(s.last() == q);
        assert(q.push(p.last()) =~= p);
        assert(s.update(s.len() - 1, s.last().push(p.last())) =~= split_on(a, t).drop_last().push(
            p,
        ));
    }
}

/// Splitting a terminated join gives back the pieces, then one empty piece.
pub proof fn lemma_split_join(ps: Seq<Seq<u8>>, t: u8)
    requires
        all_free_of(ps, t),
    ensures
        split_on(join_term(ps, t), t) == ps.push(Seq::<u8>::empty()),
    decreases ps.len(),
{
    if ps.len() == 0 {
        assert(split_on(Seq::<u8>::empty(), t) =~= ps.push(Seq::<u8>::empty()));
    } else {
        let qs = ps.drop_last();
        assert(all_free_of(qs, t)) by {
            assert forall|i: int| 0 <= i < qs.len() implies free_of(#[trigger] qs[i], t) by {
                assert(qs[i] == ps[i]);
            }
        }
        lemma_split_join(qs, t);
        let j = join_term(qs, t);
        assert(free_of(ps.last(), t)) by {
            assert(ps.last() == ps[ps.len() - 1]);
        }
        lemma_split_on_extend(j, ps.last(), t);
        let a = j + ps.last();
        assert(join_term(ps, t) == a + seq![t]);
        assert((a + seq![t]).drop_last() =~= a);
        assert(qs.push(Seq::<u8>::empty()).drop_last().push(ps.last()) =~= ps);
    }
}

/// A terminated join of pieces free of `u` is free of `u`, when `t` is not `u`.
pub proof fn lemma_join_free(ps: Seq<Seq<u8>>, t: u8, u: u8)
    requires
        all_free_of(ps, u),
        t != u,
    ensures
        free_of(join_term(ps, t), u),
    decreases ps.len(),
{
    if ps.len() > 0 {
        let qs = ps.drop_last();
        assert(all_free_of(qs, u)) by {
            assert forall|i: int| 0 <= i < qs.len() implies free_of(#[trigger] qs[i], u) by {
                assert(qs[i] == ps[i]);
            }
        }
        lemma_join_free(qs, t, u);
        assert(free_of(ps[ps.len() - 1], u));
        let j = join_term(ps, t);
        assert(j == join_term(qs, t) + ps.last() + seq![t]);
        assert forall|i: int| 0 <= i < j.len() implies j[i] != u by {
            if i < join_term(qs, t).len() {
            } else if i < join_term(qs, t).len() + ps.last().len() {
                assert(j[i] == ps.last()[i - join_term(qs, t).len()]);
            }
        }
    }
}

/// The first `t` at or after `s` is at `e` when `b[e]` is `t` and nothing
/// between is.
pub proof fn lemma_find_from(b: Seq<u8>, s: int, e: int, t: u8)
    requires
        0 <= s <= e < b.len(),
        b[e] == t,
        forall|k: int| s <= k < e ==> b[k] != t,
    ensures
        find_from(b, s, t) == e,
    decreases e - s,
{
    if s < e {
        lemma_find_from(b, s + 1, e, t);
    }
}

pub proof fn lemma_le_roundtrip(v: u32)
    ensures
        le_value(le_bytes(v), 0) == v as int,
{
    let b = le_bytes(v);
    assert(b[0] as int == v % 256);
    assert(b[1] as int == (v / 256) % 256);
    assert(b[2] as int == (v / 65536) % 256);
    assert(b[3] as int == (v / 16777216) % 256);
    assert((v % 256) + 256 * ((v / 256) % 256) + 65536 * ((v / 65536) % 256) + 16777216 * ((v
        / 16777216) % 256) == v) by (nonlinear_arith);
}

/// Appends `src` to `dst`.
pub fn append_bytes(dst: &mut Vec<u8>, src: &[u8])
    ensures
        final(dst)@ == old(dst)@ + src@,
{
    let mut i: usize = 0;
    while i < src.len()
        invariant
            i <= src@.len(),
            dst@ == old(dst)@ + src@.subrange(0, i as int),
        decreases src@.len() - i,
    {
        dst.push(src[i]);
        i = i + 1;
        assert(src@.subrange(0, i as int) =~= src@.subrange(0, i - 1).push(src@[i - 1]));
    }
    assert(src@.subrange(0, src@.len() as int) =~= src@);
}

/// The four little-endian bytes of `v`.
pub fn push_le(dst: &mut Vec<u8>, v: u32)
    ensures
        final(dst)@ == old(dst)@ + le_bytes(v),
{
    dst.push((v % 256) as u8);
    dst.push(((v / 256) % 256) as u8);
    dst.push(((v / 65536) % 256) as u8);
    dst.push(((v / 16777216) % 256) as u8);
    assert(final(dst)@ =~= old(dst)@ + le_bytes(v));
}

/// Reads four little-endian bytes of `b` at `pos`.
pub fn read_le(b: &[u8], pos: usize) -> (r: u32)
    requires
        pos + 4 <= b@.len(),
    ensures
        r as int == le_value(b@, pos as int),
{
    (b[pos] as u32) + 256 * (b[pos + 1] as u32) + 65536 * (b[pos + 2] as u32) + 16777216 * (
    b[pos + 3] as u32)
}

/// The first index at or after `start` where `b` holds `t`, or `b.len()`.
pub fn find_byte(b: &[u8], start: usize, t: u8) -> (r: usize)
    requires
        start <= b@.len(),
    ensures
        r as int == find_from(b@, start as int, t),
        start <= r <= b@.len(),
{
    let mut i = start;
    while i < b.len()
        invariant
            start <= i <= b@.len(),
            find_from(b@, i as int, t) == find_from(b@, start as int, t),
        decreases b@.len() - i,
    {
        if b[i] == t {
            return i;
        }
        i = i + 1;
    }
    i
}

/// Splits `b` on `t` as `split_on` does.
pub fn split_bytes(b: &[u8], t: u8) -> (r: Vec<Vec<u8>>)
    ensures
        views(r@) == split_on(b@, t),
{
    let mut done: Vec<Vec<u8>> = Vec::new();
    let mut cur: Vec<u8> = Vec::new();
    let mut i: usize = 0;
    assert(b@.subrange(0, 0) =~= Seq::<u8>::empty());
    assert(views(done@).push(cur@) =~= split_on(b@.subrange(0, 0), t));
    while i < b.len()
        invariant
            i <= b@.len(),
            views(done@).push(cur@) == split_on(b@.subrange(0, i as int), t),
        decreases b@.len() - i,
    {
        let ghost pre = b@.subrange(0, i as int);
        let ghost next = b@.subrange(0, i + 1);
        assert(next.drop_last() =~= pre);
        assert(next.last() == b@[i as int]);
        if b[i] == t {
            let old_cur = cur;
            cur = Vec::new();
            done.push(old_cur);
            assert(views(done@).push(cur@) =~= split_on(next, t));
        } else {
            let ghost s = split_on(pre, t);
            cur.push(b[i]);
            assert(views(done@).push(cur@) =~= s.update(s.len() - 1, s.last().push(b@[i as int])));
        }
        i = i + 1;
    }
    assert(b@.subrange(0, b@.len() as int) =~= b@);
    done.push(cur);
    assert(views(done@) =~= split_on(b@, t));
    done
}

/// Whether two byte sequences are equal.
pub fn bytes_eq(a: &[u8], b: &[u8]) -> (r: bool)
    ensures
        r == (a@ == b@),
{
    if a.len() != b.len() {
        return false;
    }
    let mut i: usize = 0;
    while i < a.len()
        invariant
            i <= a@.len(),
            a@.len() == b@.len(),
            forall|k: int| 0 <= k < i ==> a@[k] == b@[k],
        decreases a@.len() - i,
    {
        if a[i] != b[i] {
            return false;
        }
        i = i + 1;
    }
    assert(a@ =~= b@);
    true
}

/// Relies on std::str::from_utf8: it accepts exactly the well-formed UTF-8
/// byte sequences, and the text it returns is the one those bytes encode.
#[verifier::external_body]
pub(crate) fn text_from_utf8(b: &[u8]) -> (r: Option<String>)
    ensures
        r is Some <==> valid_utf8(b@),
        r matches Some(s) ==> s@ == decode_utf8(b@),
{
    match std::str::from_utf8(b) {
        Ok(s) => Some(s.to_string()),
        Err(_) => None,
    }
}

} // verus!
