//! The playlist model: tracks, their parsing from lines, and their text form.
use crate::text::{blank, has_prefix, is_blank, lines_of, split_lines, starts_with};
use vstd::prelude::*;
use vstd::string::StringExecFns;

verus! {

/// One entry of a playlist: an optional `#EXTINF` directive and the path line.
#[derive(Debug, Clone, PartialEq, Eq)]
pub struct Track {
    pub extinf: Option<String>,
    pub path: String,
}

/// An ordered list of tracks; the order is the playback order.
#[derive(Debug, Clone, PartialEq, Eq)]
pub struct M3U {
    pub tracks: Vec<Track>,
}

/// Why a sequence of lines is not a playlist.
#[derive(Debug, Clone, PartialEq, Eq)]
pub enum ParseError {
    /// The input is empty or its first line does not begin with `#EXTM3U`.
    MissingHeader,
    /// A line could not be read; holds the reader's diagnostic.
    UnreadableLine(String),
}

/// A track as values: the directive's characters, if any, and the path's.
pub type TrackV = (Option<Seq<char>>, Seq<char>);

/// What the line scan carries: the tracks so far and the pending directive.
pub type ScanState = (Seq<TrackV>, Option<Seq<char>>);

pub open spec fn opt_view(o: Option<String>) -> Option<Seq<char>> {
    match o {
        Some(s) => Some(s@),
        None => None,
    }
}

impl View for Track {
    type V = TrackV;

    open spec fn view(&self) -> TrackV {
        (opt_view(self.extinf), self.path@)
    }
}

impl View for M3U {
    type V = Seq<TrackV>;

    open spec fn view(&self) -> Seq<TrackV> {
        self.tracks@.map_values(|t: Track| t@)
    }
}

/// `#EXTM3U`, which a playlist's first line must begin with.
pub open spec fn header_marker() -> Seq<char> {
    seq!['#', 'E', 'X', 'T', 'M', '3', 'U']
}

/// `#EXTINF`, which begins a metadata directive.
pub open spec fn extinf_marker() -> Seq<char> {
    seq!['#', 'E', 'X', 'T', 'I', 'N', 'F']
}

pub open spec fn is_directive(line: Seq<char>) -> bool {
    !is_blank(line) && has_prefix(line, extinf_marker())
}

/// A line that becomes a track's path.
pub open spec fn is_path(line: Seq<char>) -> bool {
    !is_blank(line) && !has_prefix(line, extinf_marker())
}

/// One line of the body: blank lines change nothing, a directive becomes
/// the pending one, any other line is a track that takes the pending directive.
pub open spec fn step(st: ScanState, line: Seq<char>) -> ScanState {
    if is_blank(line) {
        st
    } else if has_prefix(line, extinf_marker()) {
        (st.0, Some(line))
    } else {
        (st.0.push((st.1, line)), None)
    }
}

/// The state after the lines `body`, from the state `st`.
pub open spec fn run(st: ScanState, body: Seq<Seq<char>>) -> ScanState
    decreases body.len(),
{
    if body.len() == 0 {
        st
    } else {
        step(run(st, body.drop_last()), body.last())
    }
}

/// A track as parsing makes it: its path is a non-blank line that is no
/// directive, and its directive, if any, is a directive line.
pub open spec fn valid_track(t: TrackV) -> bool {
    is_path(t.1) && (t.0 is Some ==> is_directive(t.0->Some_0))
}

/// Every track that a scan makes is valid, and so is what it holds pending.
pub proof fn lemma_run_valid(body: Seq<Seq<char>>)
    ensures
        forall|i: int|
            0 <= i < run((Seq::empty(), None), body).0.len() ==> valid_track(
                #[trigger] run((Seq::empty(), None), body).0[i],
            ),
        run((Seq::empty(), None), body).1 is Some ==> is_directive(
            run((Seq::empty(), None), body).1->Some_0,
        ),
    decreases body.len(),
{
    if body.len() > 0 {
        lemma_run_valid(body.drop_last());
    }
}

/// The tracks that the lines after the header make.
pub open spec fn tracks_of(body: Seq<Seq<char>>) -> Seq<TrackV> {
    run((Seq::empty(), None), body).0
}

pub open spec fn line_text(r: Result<String, String>) -> Seq<char> {
    match r {
        Ok(s) => s@,
        Err(_) => Seq::empty(),
    }
}

/// The texts of the lines after the first.
pub open spec fn body_of(lines: Seq<Result<String, String>>) -> Seq<Seq<char>> {
    lines.subrange(1, lines.len() as int).map_values(|r: Result<String, String>| line_text(r))
}

/// The first line was read and begins with the header marker.
pub open spec fn header_ok(lines: Seq<Result<String, String>>) -> bool {
    lines.len() > 0 && lines[0] is Ok && has_prefix(lines[0]->Ok_0@, header_marker())
}

/// The directive line followed by a line terminator, if there is one.
pub open spec fn directive_text(e: Option<Seq<char>>) -> Seq<char> {
    match e {
        Some(d) => d + seq!['\n'],
        None => Seq::empty(),
    }
}

/// A track as text: its directive line, if any, then its path, unterminated.
pub open spec fn track_text(t: TrackV) -> Seq<char> {
    directive_text(t.0) + t.1
}

/// The tracks as text, each followed by a line terminator.
pub open spec fn tracks_text(ts: Seq<TrackV>) -> Seq<char>
    decreases ts.len(),
{
    if ts.len() == 0 {
        Seq::empty()
    } else {
        tracks_text(ts.drop_last()) + track_text(ts.last()) + seq!['\n']
    }
}

/// A playlist as text: the header line, then each track.
pub open spec fn playlist_text(ts: Seq<TrackV>) -> Seq<char> {
    header_marker().push('\n') + tracks_text(ts)
}

impl Track {
    /// The track as text: the directive line, if any, then the path, with no
    /// final line terminator.
    pub fn to_text(&self) -> (r: String)
        ensures
            r@ == track_text(self@),
    {
        let mut out = String::new();
        match &self.extinf {
            Some(e) => {
                out.append(e.as_str());
                out.append("\n");
            },
            None => {},
        }
        out.append(self.path.as_str());
        proof {
            reveal_strlit("\n");
        }
        assert(out@ =~= track_text(self@));
        out
    }
}

impl M3U {
    /// Builds a playlist from the lines of its text, with line terminators
    /// already removed. An `Err` item is a line that could not be read.
    pub fn from_lines(lines: &Vec<Result<String, String>>) -> (r: Result<M3U, ParseError>)
        ensures
            lines@.len() == 0 ==> r == Err::<M3U, ParseError>(ParseError::MissingHeader),
            lines@.len() > 0 && lines@[0] is Ok && !header_ok(lines@) ==> r == Err::<
                M3U,
                ParseError,
            >(ParseError::MissingHeader),
            lines@.len() > 0 && lines@[0] is Err ==> r == Err::<M3U, ParseError>(
                ParseError::UnreadableLine(lines@[0]->Err_0),
            ),
            forall|k: int|
                #![trigger lines@[k]]
                header_ok(lines@) && 1 <= k < lines@.len() && lines@[k] is Err && (forall|j: int|
                    1 <= j < k ==> #[trigger] lines@[j] is Ok) ==> r == Err::<M3U, ParseError>(
                    ParseError::UnreadableLine(lines@[k]->Err_0),
                ),
            header_ok(lines@) && (forall|j: int| 1 <= j < lines@.len() ==> #[trigger] lines@[j] is Ok)
                ==> r is Ok && r->Ok_0@ == tracks_of(body_of(lines@)),
            r is Ok ==> forall|i: int| 0 <= i < r->Ok_0@.len() ==> valid_track(#[trigger] r->Ok_0@[i]),
    {
        if lines.len() == 0 {
            return Err(ParseError::MissingHeader);
        }
        proof {
            reveal_strlit("#EXTM3U");
            reveal_strlit("#EXTINF");
            assert("#EXTM3U"@ =~= header_marker());
            assert("#EXTINF"@ =~= extinf_marker());
        }
        match &lines[0] {
            Err(e) => {
                return Err(ParseError::UnreadableLine(e.clone()));
            },
            Ok(h) => {
                if !starts_with(h.as_str(), "#EXTM3U") {
                    return Err(ParseError::MissingHeader);
                }
            },
        }
        let mut tracks: Vec<Track> = Vec::new();
        let mut pending: Option<String> = None;
        let mut i: usize = 1;
        while i < lines.len()
            invariant
                header_ok(lines@),
                "#EXTINF"@ == extinf_marker(),
                1 <= i <= lines@.len(),
                forall|j: int| 1 <= j < i ==> #[trigger] lines@[j] is Ok,
                (tracks@.map_values(|t: Track| t@), opt_view(pending)) == run(
                    (Seq::empty(), None),
                    body_of(lines@.subrange(0, i as int)),
                ),
            decreases lines@.len() - i,
        {
            let ghost before = body_of(lines@.subrange(0, i as int));
            let ghost after = body_of(lines@.subrange(0, i + 1));
            match &lines[i] {
                Err(e) => {
                    return Err(ParseError::UnreadableLine(e.clone()));
                },
                Ok(ln) => {
                    assert(after.drop_last() =~= before);
                    assert(after.last() == ln@);
                    assert(run((Seq::empty(), None), after) == step(
                        run((Seq::empty(), None), before),
                        ln@,
                    ));
                    if blank(ln.as_str()) {
                    } else if starts_with(ln.as_str(), "#EXTINF") {
                        pending = Some(ln.clone());
                    } else {
                        let ghost prev = tracks@;
                        let t = Track { extinf: pending, path: ln.clone() };
                        assert(t@ == (run((Seq::empty(), None), before).1, ln@));
                        tracks.push(t);
                        pending = None;
                        assert(tracks@.map_values(|t: Track| t@) =~= prev.map_values(
                            |t: Track| t@,
                        ).push(t@));
                    }
                    assert(tracks@.map_values(|t: Track| t@) =~= run(
                        (Seq::empty(), None),
                        after,
                    ).0);
                },
            }
            i = i + 1;
        }
        assert(lines@.subrange(0, lines@.len() as int) =~= lines@);
        proof {
            lemma_run_valid(body_of(lines@));
        }
        Ok(M3U { tracks })
    }

    /// Reads a playlist from its whole text, split into lines as `lines_of`
    /// says.
    pub fn parse(text: &str) -> (r: Result<M3U, ParseError>)
        ensures
            lines_of(text@).len() == 0 || !has_prefix(lines_of(text@)[0], header_marker()) ==> r
                == Err::<M3U, ParseError>(ParseError::MissingHeader),
            lines_of(text@).len() > 0 && has_prefix(lines_of(text@)[0], header_marker()) ==> r is Ok
                && r->Ok_0@ == tracks_of(lines_of(text@).drop_first()),
            r is Ok ==> forall|i: int| 0 <= i < r->Ok_0@.len() ==> valid_track(#[trigger] r->Ok_0@[i]),
    {
        let lines = split_lines(text);
        let ghost ls = lines_of(text@);
        assert(lines@.len() == ls.len());
        let mut rs: Vec<Result<String, String>> = Vec::new();
        let mut i: usize = 0;
        while i < lines.len()
            invariant
                0 <= i <= lines@.len(),
                lines@.map_values(|s: String| s@) == ls,
                rs@.len() == i,
                forall|j: int| 0 <= j < i ==> (#[trigger] rs@[j]) is Ok && rs@[j]->Ok_0@ == ls[j],
            decreases lines@.len() - i,
        {
            rs.push(Ok(lines[i].clone()));
            i = i + 1;
        }
        proof {
            if ls.len() > 0 {
                assert(rs@[0]->Ok_0@ == ls[0]);
                assert(body_of(rs@) =~= ls.drop_first());
            }
        }
        M3U::from_lines(&rs)
    }

    /// The playlist as text: `#EXTM3U`, then each track, every line ended
    /// by a line feed.
    pub fn to_text(&self) -> (r: String)
        ensures
            r@ == playlist_text(self@),
    {
        let mut out = String::new();
        out.append("#EXTM3U\n");
        proof {
            reveal_strlit("#EXTM3U\n");
            reveal_strlit("\n");
        }
        let mut i: usize = 0;
        while i < self.tracks.len()
            invariant
                0 <= i <= self.tracks@.len(),
                "\n"@ == seq!['\n'],
                out@ == header_marker().push('\n') + tracks_text(self@.subrange(0, i as int)),
            decreases self.tracks@.len() - i,
        {
            let t = self.tracks[i].to_text();
            out.append(t.as_str());
            out.append("\n");
            assert(self@.subrange(0, i + 1).drop_last() =~= self@.subrange(0, i as int));
            i = i + 1;
        }
        assert(self@.subrange(0, self@.len() as int) =~= self@);
        out
    }

    /// Puts the tracks in a random order: the same tracks, each once.
    pub fn shuffle(&mut self)
        ensures
            final(self).tracks@.to_multiset() == old(self).tracks@.to_multiset(),
            old(self).tracks@.len() <= 1 ==> final(self).tracks@ == old(self).tracks@,
    {
        shuffle_tracks(&mut self.tracks);
        proof {
            let a = old(self).tracks@;
            let b = self.tracks@;
            broadcast use vstd::seq_lib::group_to_multiset_ensures;

            if a.len() <= 1 {
                assert(a.to_multiset().len() == b.to_multiset().len());
                assert(b.len() == a.len());
                if a.len() == 1 {
                    assert(a.to_multiset().count(b[0]) > 0);
                    assert(b =~= a);
                } else {
                    assert(b =~= a);
                }
            }
        }
    }
}

/// Relies on rand's `SliceRandom::shuffle`, which only swaps items, drawing
/// from the thread-local generator that `rand::thread_rng` seeds from the
/// system's entropy source.
#[verifier::external_body]
fn shuffle_tracks(tracks: &mut Vec<Track>)
    ensures
        final(tracks)@.to_multiset() == old(tracks)@.to_multiset(),
{
    rand::seq::SliceRandom::shuffle(tracks.as_mut_slice(), &mut rand::thread_rng());
}

} // verus!
