//! Properties that relate parsing and writing playlists.
use crate::playlist::{
    directive_text, extinf_marker, header_marker, is_directive, is_path, playlist_text, run, step, track_text,
    tracks_of, tracks_text, ScanState,
};
use crate::text::{has_prefix, is_blank, lines_of};
use vstd::prelude::*;

verus! {

/// The lines of `ls` that are not blank, in order.
pub open spec fn nonblank(ls: Seq<Seq<char>>) -> Seq<Seq<char>>
    decreases ls.len(),
{
    if ls.len() == 0 {
        Seq::empty()
    } else if is_blank(ls.last()) {
        nonblank(ls.drop_last())
    } else {
        nonblank(ls.drop_last()).push(ls.last())
    }
}

/// The lines of `ls`, each followed by a line feed.
pub open spec fn joined(ls: Seq<Seq<char>>) -> Seq<char>
    decreases ls.len(),
{
    if ls.len() == 0 {
        Seq::empty()
    } else {
        joined(ls.drop_last()) + ls.last() + seq!['\n']
    }
}

/// No directive is followed by another directive.
pub open spec fn no_double_directive(ls: Seq<Seq<char>>) -> bool {
    forall|i: int|
        0 <= i && i + 1 < ls.len() && #[trigger] has_prefix(ls[i], extinf_marker()) ==> !has_prefix(
            ls[i + 1],
            extinf_marker(),
        )
}

/// Every directive is followed by a path line: no two directives in a row
/// and none at the end.
pub open spec fn all_attached(ls: Seq<Seq<char>>) -> bool {
    no_double_directive(ls) && (ls.len() > 0 ==> !has_prefix(ls.last(), extinf_marker()))
}

pub open spec fn init() -> ScanState {
    (Seq::empty(), None)
}

/// Scanning `a` then `b` is scanning `a + b`.
pub proof fn lemma_run_append(st: ScanState, a: Seq<Seq<char>>, b: Seq<Seq<char>>)
    ensures
        run(st, a + b) == run(run(st, a), b),
    decreases b.len(),
{
    if b.len() == 0 {
        assert(a + b =~= a);
    } else {
        assert((a + b).drop_last() =~= a + b.drop_last());
        assert((a + b).last() == b.last());
        lemma_run_append(st, a, b.drop_last());
    }
}

/// Blank lines leave the scan as it was.
pub proof fn lemma_run_blanks(st: ScanState, bs: Seq<Seq<char>>)
    requires
        forall|i: int| 0 <= i < bs.len() ==> is_blank(#[trigger] bs[i]),
    ensures
        run(st, bs) == st,
    decreases bs.len(),
{
    if bs.len() > 0 {
        lemma_run_blanks(st, bs.drop_last());
    }
}

/// What the text of the tracks scanned so far is, against the non-blank lines.
proof fn lemma_text_of_run(p: Seq<Seq<char>>)
    requires
        no_double_directive(nonblank(p)),
    ensures
        ({
            let st = run(init(), p);
            let nb = nonblank(p);
            &&& st.1 is Some <==> (nb.len() > 0 && has_prefix(nb.last(), extinf_marker()))
            &&& st.1 is Some ==> st.1->Some_0 == nb.last()
            &&& tracks_text(st.0) + directive_text(st.1) == joined(nb)
        }),
    decreases p.len(),
{
    if p.len() == 0 {
        assert(tracks_text(Seq::<(Option<Seq<char>>, Seq<char>)>::empty()) + directive_text(None)
            =~= joined(Seq::<Seq<char>>::empty()));
    } else {
        let q = p.drop_last();
        let l = p.last();
        let nbq = nonblank(q);
        assert(no_double_directive(nbq)) by {
            if !is_blank(l) {
                assert forall|i: int|
                    0 <= i && i + 1 < nbq.len() && #[trigger] has_prefix(
                        nbq[i],
                        extinf_marker(),
                    ) implies !has_prefix(nbq[i + 1], extinf_marker()) by {
                    assert(nonblank(p)[i] == nbq[i]);
                    assert(nonblank(p)[i + 1] == nbq[i + 1]);
                }
            }
        }
        lemma_text_of_run(q);
        let st = run(init(), q);
        assert(run(init(), p) == step(st, l));
        if is_blank(l) {
            assert(nonblank(p) == nbq);
        } else {
            assert(nonblank(p) == nbq.push(l));
            assert(nbq.push(l).drop_last() =~= nbq);
            assert(joined(nbq.push(l)) == joined(nbq) + l + seq!['\n']);
        }
        if is_blank(l) {
        } else if has_prefix(l, extinf_marker()) {
            if st.1 is Some {
                let k = nbq.len() - 1;
                assert(nonblank(p)[k] == nbq.last());
                assert(nonblank(p)[k + 1] == l);
            }
            assert(tracks_text(st.0) + directive_text(Some(l)) =~= joined(nbq) + l + seq!['\n']);
        } else {
            let ts = st.0.push((st.1, l));
            assert(ts.drop_last() =~= st.0);
            assert(tracks_text(ts) == tracks_text(st.0) + track_text((st.1, l)) + seq!['\n']);
            assert(tracks_text(ts) + directive_text(None) =~= tracks_text(st.0)
                + directive_text(st.1) + l + seq!['\n']);
        }
    }
}

/// Writing a parsed playlist gives its text back with `#EXTM3U` as the first
/// line, the blank lines left out and every line ended by a line feed alone,
/// when every directive of the body is followed by a path line.
pub proof fn lemma_round_trip(t: Seq<char>)
    requires
        lines_of(t).len() > 0,
        has_prefix(lines_of(t)[0], header_marker()),
        all_attached(nonblank(lines_of(t).drop_first())),
    ensures
        playlist_text(tracks_of(lines_of(t).drop_first())) == header_marker().push('\n') + joined(
            nonblank(lines_of(t).drop_first()),
        ),
{
    let body = lines_of(t).drop_first();
    lemma_text_of_run(body);
    let st = run(init(), body);
    assert(st.1 is None);
    assert(tracks_text(st.0) + directive_text(st.1) =~= tracks_text(st.0));
}

/// Scanning one line is one step.
proof fn lemma_run_one(st: ScanState, x: Seq<char>)
    ensures
        run(st, seq![x]) == step(st, x),
{
    assert(seq![x].drop_last() =~= Seq::<Seq<char>>::empty());
    assert(run(st, Seq::<Seq<char>>::empty()) == st);
    assert(seq![x].last() == x);
}

/// A directive attaches to the next path line, across any blank lines.
pub proof fn lemma_directive_attaches(
    a: Seq<Seq<char>>,
    d: Seq<char>,
    bs: Seq<Seq<char>>,
    p: Seq<char>,
)
    requires
        is_directive(d),
        forall|i: int| 0 <= i < bs.len() ==> is_blank(#[trigger] bs[i]),
        is_path(p),
    ensures
        tracks_of(a + seq![d] + bs + seq![p]) == tracks_of(a).push((Some(d), p)),
{
    lemma_run_append(init(), a + seq![d] + bs, seq![p]);
    lemma_run_append(init(), a + seq![d], bs);
    lemma_run_append(init(), a, seq![d]);
    lemma_run_blanks(run(init(), a + seq![d]), bs);
    lemma_run_one(run(init(), a), d);
    lemma_run_one(run(init(), a + seq![d] + bs), p);
}

/// Of two directives in a row before a path line, only the second attaches.
pub proof fn lemma_second_directive_wins(
    a: Seq<Seq<char>>,
    d1: Seq<char>,
    d2: Seq<char>,
    p: Seq<char>,
)
    requires
        is_directive(d1),
        is_directive(d2),
        is_path(p),
    ensures
        tracks_of(a + seq![d1, d2, p]) == tracks_of(a).push((Some(d2), p)),
{
    let a1 = a + seq![d1];
    lemma_run_append(init(), a, seq![d1]);
    lemma_run_one(run(init(), a), d1);
    lemma_directive_attaches(a1, d2, Seq::empty(), p);
    assert(a1 + seq![d2] + Seq::<Seq<char>>::empty() + seq![p] =~= a + seq![d1, d2, p]);
}

/// A directive that no path line follows makes no track.
pub proof fn lemma_dangling_directive_dropped(a: Seq<Seq<char>>, d: Seq<char>, bs: Seq<Seq<char>>)
    requires
        is_directive(d),
        forall|i: int| 0 <= i < bs.len() ==> is_blank(#[trigger] bs[i]),
    ensures
        tracks_of(a + seq![d] + bs) == tracks_of(a),
{
    lemma_run_append(init(), a + seq![d], bs);
    lemma_run_append(init(), a, seq![d]);
    lemma_run_blanks(run(init(), a + seq![d]), bs);
    lemma_run_one(run(init(), a), d);
}

/// A path line whose nearest non-blank line before it is a path line takes
/// no directive.
pub proof fn lemma_path_after_path(
    a: Seq<Seq<char>>,
    q: Seq<char>,
    bs: Seq<Seq<char>>,
    p: Seq<char>,
)
    requires
        is_path(q),
        forall|i: int| 0 <= i < bs.len() ==> is_blank(#[trigger] bs[i]),
        is_path(p),
    ensures
        tracks_of(a + seq![q] + bs + seq![p]) == tracks_of(a + seq![q]).push((None, p)),
{
    lemma_run_append(init(), a + seq![q] + bs, seq![p]);
    lemma_run_append(init(), a + seq![q], bs);
    lemma_run_append(init(), a, seq![q]);
    lemma_run_blanks(run(init(), a + seq![q]), bs);
    lemma_run_one(run(init(), a), q);
    lemma_run_one(run(init(), a + seq![q] + bs), p);
}

} // verus!
