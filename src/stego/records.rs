//! Documents that carry one fixed-width piece of text per hidden byte between a head and a
//! foot.
use crate::bytes::{bytes_at, occurs_at, push_bytes, starts_with};
use crate::stego::{audio, css, font, grid, houdini, prism, svg_path};
use vstd::prelude::*;

verus! {

/// The ways a codec writes one byte of hidden data as one fixed-width piece of text.
#[derive(PartialEq, Eq, Structural, Clone, Copy)]
pub enum Scheme {
    Variation,
    Paint,
    Track,
    Delays,
    Path,
    Nested,
    Wave,
}

/// The piece of text for the byte `b` at position `i`.
#[verifier::opaque]
pub open spec fn record(k: Scheme, i: int, b: u8) -> Seq<u8> {
    match k {
        Scheme::Variation => font::variation(i, b),
        Scheme::Paint => houdini::paint_param(b),
        Scheme::Track => grid::track(i, b),
        Scheme::Delays => css::delays(i, b),
        Scheme::Path => svg_path::segment(b),
        Scheme::Nested => prism::nested(b),
        Scheme::Wave => audio::frame(b),
    }
}

pub open spec fn width(k: Scheme) -> nat {
    record(k, 0, 0).len()
}

/// The pieces for all bytes of `x`, in order.
pub open spec fn records(k: Scheme, x: Seq<u8>) -> Seq<u8>
    decreases x.len(),
{
    if x.len() == 0 {
        Seq::empty()
    } else {
        records(k, x.drop_last()) + record(k, x.len() - 1, x.last())
    }
}

/// `s` is `head`, the pieces for `x`, then `foot`.
pub open spec fn framed(k: Scheme, s: Seq<u8>, head: Seq<u8>, x: Seq<u8>, foot: Seq<u8>) -> bool {
    s == head + records(k, x) + foot
}

pub proof fn lemma_record_width(k: Scheme, i: int, b: u8)
    ensures
        record(k, i, b).len() == width(k),
        width(k) > 0,
{
    reveal(record);
    match k {
        Scheme::Variation => font::lemma_variation_width(i, b),
        Scheme::Paint => houdini::lemma_paint_width(b),
        Scheme::Track => grid::lemma_track_width(i, b),
        Scheme::Delays => css::lemma_delays_width(i, b),
        Scheme::Path => svg_path::lemma_segment_width(b),
        Scheme::Nested => prism::lemma_nested_width(b),
        Scheme::Wave => audio::lemma_frame_width(b),
    }
}

pub proof fn lemma_records(k: Scheme, x: Seq<u8>)
    ensures
        records(k, x).len() == x.len() * width(k),
        forall|i: int|
            0 <= i < x.len() ==> records(k, x).subrange(i * width(k), (i + 1) * width(k))
                == #[trigger] record(k, i, x[i]),
    decreases x.len(),
{
    if x.len() > 0 {
        let y = x.drop_last();
        let n = x.len() - 1;
        lemma_records(k, y);
        lemma_record_width(k, n, x.last());
        let w = width(k);
        assert(records(k, x) == records(k, y) + record(k, n, x.last()));
        assert((n + 1) * w == n * w + w) by (nonlinear_arith);
        assert forall|i: int| 0 <= i < x.len() implies records(k, x).subrange(i * w, (i + 1) * w)
            == #[trigger] record(k, i, x[i]) by {
            assert((i + 1) * w == i * w + w) by (nonlinear_arith);
            if i < n {
                assert((i + 1) * w <= n * w) by (nonlinear_arith)
                    requires
                        i + 1 <= n,
                        w >= 0,
                ;
                assert(0 <= i * w) by (nonlinear_arith)
                    requires
                        i >= 0,
                        w >= 0,
                ;
                assert(records(k, x).subrange(i * w, (i + 1) * w) =~= records(k, y).subrange(
                    i * w,
                    (i + 1) * w,
                ));
                assert(y[i] == x[i]);
            } else {
                assert(records(k, x).subrange(i * w, (i + 1) * w) =~= record(k, n, x.last()));
            }
        }
    }
}

/// Writes the piece for `b` at position `i`.
pub fn write_record(k: Scheme, i: usize, b: u8, out: &mut Vec<u8>)
    ensures
        final(out)@ == old(out)@ + record(k, i as int, b),
{
    reveal(record);
    match k {
        Scheme::Variation => font::write_variation(i, b, out),
        Scheme::Paint => houdini::write_paint_param(b, out),
        Scheme::Track => grid::write_track(i, b, out),
        Scheme::Delays => css::write_delays(i, b, out),
        Scheme::Path => svg_path::write_segment(b, out),
        Scheme::Nested => prism::write_nested(b, out),
        Scheme::Wave => audio::write_frame(b, out),
    }
}

/// Reads the piece at `at` as the one for position `i`: the byte it stands for, if it is one.
pub fn read_record(k: Scheme, s: &[u8], at: usize, i: usize) -> (r: Option<u8>)
    ensures
        r is Some ==> occurs_at(s@, at as int, record(k, i as int, r->Some_0)),
        forall|b: u8| #[trigger] occurs_at(s@, at as int, record(k, i as int, b)) ==> r == Some(b),
{
    proof {
        reveal(record);
    }
    let guess = match k {
        Scheme::Variation => font::guess_variation(s, at),
        Scheme::Paint => houdini::guess_paint_param(s, at),
        Scheme::Track => grid::guess_track(s, at, i),
        Scheme::Delays => css::guess_delays(s, at),
        Scheme::Path => svg_path::guess_segment(s, at),
        Scheme::Nested => prism::guess_nested(s, at),
        Scheme::Wave => audio::guess_frame(s, at),
    };
    match guess {
        None => None,
        Some(b) => {
            let mut expected: Vec<u8> = Vec::new();
            write_record(k, i, b, &mut expected);
            assert(expected@ =~= record(k, i as int, b));
            if bytes_at(s, at, expected.as_slice()) {
                Some(b)
            } else {
                None
            }
        },
    }
}

/// The width of every piece of the scheme.
pub fn record_width(k: Scheme) -> (r: usize)
    ensures
        r == width(k),
        r > 0,
{
    let mut probe: Vec<u8> = Vec::new();
    write_record(k, 0, 0, &mut probe);
    proof {
        lemma_record_width(k, 0, 0);
        assert(probe@ =~= record(k, 0, 0));
    }
    probe.len()
}

/// Appends the pieces for all of `data`.
pub fn write_records(k: Scheme, data: &[u8], out: &mut Vec<u8>)
    ensures
        final(out)@ == old(out)@ + records(k, data@),
{
    let mut i: usize = 0;
    while i < data.len()
        invariant
            i <= data@.len(),
            out@ == old(out)@ + records(k, data@.subrange(0, i as int)),
        decreases data@.len() - i,
    {
        write_record(k, i, data[i], out);
        i = i + 1;
        proof {
            let t = data@.subrange(0, i as int);
            assert(t.drop_last() =~= data@.subrange(0, i - 1));
            assert(records(k, t) == records(k, t.drop_last()) + record(k, i - 1, t.last()));
            assert(out@ =~= old(out)@ + records(k, t));
        }
    }
    assert(data@.subrange(0, data@.len() as int) =~= data@);
}

/// The bytes whose pieces fill `s` from `from` to `to` exactly, if there are such bytes.
pub fn read_records(k: Scheme, s: &[u8], from: usize, to: usize) -> (r: Option<Vec<u8>>)
    requires
        from <= to <= s@.len(),
    ensures
        r is Some ==> s@.subrange(from as int, to as int) == records(k, r->Some_0@),
        forall|x: Seq<u8>| s@.subrange(from as int, to as int) == #[trigger] records(k, x) ==> r
            is Some && r->Some_0@ == x,
{
    let w = record_width(k);
    let span = to - from;
    if span % w != 0 {
        proof {
            assert forall|x: Seq<u8>| s@.subrange(from as int, to as int) != #[trigger] records(k, x) by {
                lemma_records(k, x);
                if s@.subrange(from as int, to as int) == records(k, x) {
                    assert((x.len() * w) % (w as int) == 0) by (nonlinear_arith)
                        requires
                            w > 0,
                    ;
                }
            }
        }
        return None;
    }
    let n = span / w;
    assert(n * w == span) by (nonlinear_arith)
        requires
            span % w == 0,
            n == span / w,
            w > 0,
    ;
    let mut out: Vec<u8> = Vec::new();
    let mut i: usize = 0;
    while i < n
        invariant
            w == width(k),
            w > 0,
            n * w == span,
            span == to - from,
            from <= to <= s@.len(),
            i <= n,
            out@.len() == i,
            s@.subrange(from as int, from + i * w) == records(k, out@),
            forall|x: Seq<u8>| #[trigger] records(k, x) == s@.subrange(from as int, to as int)
                ==> x.subrange(0, i as int) == out@,
        decreases n - i,
    {
        assert(i * w + w <= span) by (nonlinear_arith)
            requires
                i < n,
                n * w == span,
                w > 0,
        ;
        let at = from + i * w;
        assert((i + 1) * w == i * w + w) by (nonlinear_arith);
        let got = read_record(k, s, at, i);
        match got {
            None => {
                proof {
                    assert forall|x: Seq<u8>| s@.subrange(from as int, to as int) != #[trigger] records(k, x) by {
                        if records(k, x) == s@.subrange(from as int, to as int) {
                            lemma_records(k, x);
                            assert(x.len() == n) by (nonlinear_arith)
                                requires
                                    x.len() * w == n * w,
                                    w > 0,
                            ;
                            assert(s@.subrange(at as int, at + w) =~= records(k, x).subrange(
                                i * w,
                                (i + 1) * w,
                            ));
                            lemma_record_width(k, i as int, x[i as int]);
                            assert(occurs_at(s@, at as int, record(k, i as int, x[i as int])));
                        }
                    }
                }
                return None;
            },
            Some(b) => {
                proof {
                    lemma_record_width(k, i as int, b);
                    let t = out@.push(b);
                    assert(t.drop_last() == out@);
                    assert(records(k, t) == records(k, out@) + record(k, i as int, b));
                    assert(s@.subrange(from as int, at + w) =~= s@.subrange(from as int, at as int)
                        + s@.subrange(at as int, at + w));
                    assert forall|x: Seq<u8>| #[trigger] records(k, x) == s@.subrange(from as int, to as int)
                        implies x.subrange(0, i + 1) == t by {
                        lemma_records(k, x);
                        assert(x.len() == n) by (nonlinear_arith)
                            requires
                                x.len() * w == n * w,
                                w > 0,
                        ;
                        assert(s@.subrange(at as int, at + w) =~= records(k, x).subrange(
                            i * w,
                            (i + 1) * w,
                        ));
                        assert(occurs_at(s@, at as int, record(k, i as int, x[i as int])));
                        assert(x.subrange(0, i as int) == out@);
                        assert(x.subrange(0, i + 1) =~= x.subrange(0, i as int).push(x[i as int]));
                    }
                }
                out.push(b);
                i = i + 1;
                assert((i - 1) * w + w == i * w) by (nonlinear_arith);
            },
        }
    }
    proof {
        assert forall|x: Seq<u8>| s@.subrange(from as int, to as int) == #[trigger] records(k, x)
            implies out@ == x by {
            lemma_records(k, x);
            assert(x.len() == n) by (nonlinear_arith)
                requires
                    x.len() * w == n * w,
                    w > 0,
            ;
            assert(x.subrange(0, n as int) =~= x);
        }
        assert(from + n * w == to);
    }
    Some(out)
}

/// `head`, the pieces for `data`, then `foot`.
pub fn write_framed(k: Scheme, head: &[u8], data: &[u8], foot: &[u8]) -> (r: Vec<u8>)
    ensures
        framed(k, r@, head@, data@, foot@),
{
    let mut out: Vec<u8> = Vec::new();
    push_bytes(&mut out, head);
    write_records(k, data, &mut out);
    push_bytes(&mut out, foot);
    assert(out@ =~= head@ + records(k, data@) + foot@);
    out
}

/// The bytes framed in `s` between `head` and `foot`; empty where `s` is not so framed.
pub fn read_framed(k: Scheme, s: &[u8], head: &[u8], foot: &[u8]) -> (r: Vec<u8>)
    ensures
        forall|x: Seq<u8>| #[trigger] framed(k, s@, head@, x, foot@) ==> r@ == x,
        r@.len() > 0 ==> framed(k, s@, head@, r@, foot@),
{
    if !starts_with(s, head) || s.len() - head.len() < foot.len() {
        proof {
            assert forall|x: Seq<u8>| #[trigger] framed(k, s@, head@, x, foot@) implies false by {
                assert(s@.subrange(0, head@.len() as int) =~= head@);
            }
        }
        return Vec::new();
    }
    let end = s.len() - foot.len();
    if !bytes_at(s, end, foot) {
        proof {
            assert forall|x: Seq<u8>| #[trigger] framed(k, s@, head@, x, foot@) implies false by {
                assert(s@.subrange(end as int, end + foot@.len()) =~= foot@);
            }
        }
        return Vec::new();
    }
    match read_records(k, s, head.len(), end) {
        Some(x) => {
            proof {
                assert(s@ =~= s@.subrange(0, head@.len() as int) + s@.subrange(
                    head@.len() as int,
                    end as int,
                ) + s@.subrange(end as int, s@.len() as int));
                assert forall|y: Seq<u8>| #[trigger] framed(k, s@, head@, y, foot@) implies x@ == y by {
                    assert(s@.subrange(head@.len() as int, end as int) =~= records(k, y));
                }
                if x@.len() > 0 {
                    assert(s@.subrange(head@.len() as int, end as int) == records(k, x@));
                    assert(s@.subrange(0, head@.len() as int) == head@);
                    assert(s@.subrange(end as int, s@.len() as int) == foot@);
                }
            }
            x
        },
        None => {
            proof {
                assert forall|y: Seq<u8>| #[trigger] framed(k, s@, head@, y, foot@) implies false by {
                    assert(s@.subrange(head@.len() as int, end as int) =~= records(k, y));
                }
            }
            Vec::new()
        },
    }
}

} // verus!
