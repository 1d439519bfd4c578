//! Case-insensitive substring search over song records: a song matches a
//! query when the lower-cased query occurs in the lower-cased title, artist
//! or album.
use vstd::prelude::*;
use vstd::seq_lib::group_seq_properties;
use vstd::string::StrSliceExecFns;

verus! {

/// One song record.
#[derive(Clone)]
pub struct Song {
    pub id: String,
    pub title: String,
    pub artist: String,
    pub album: String,
    pub cover_art: Option<String>,
}

/// What `str::to_lowercase` returns for a given sequence of characters.
pub uninterp spec fn lower_of(s: Seq<char>) -> Seq<char>;

/// Relies on str::to_lowercase: the result is the Unicode lower-case mapping
/// of the input, a function of the characters alone, and the empty string
/// stays empty.
#[verifier::external_body]
fn to_lowercase(s: &str) -> (r: String)
    ensures
        r@ == lower_of(s@),
        s@.len() == 0 ==> r@.len() == 0,
{
    s.to_lowercase()
}

/// `p` occurs as a contiguous run inside `t` starting at `i`.
pub open spec fn occurs_at(t: Seq<char>, p: Seq<char>, i: int) -> bool {
    0 <= i && i + p.len() <= t.len() && t.subrange(i, i + p.len()) == p
}

/// `p` occurs somewhere inside `t`; the empty sequence occurs in everything.
pub open spec fn is_substring(p: Seq<char>, t: Seq<char>) -> bool {
    exists|i: int| occurs_at(t, p, i)
}

/// A song matches a lower-cased query when the query occurs in the
/// lower-cased title, artist or album.
pub open spec fn song_matches(s: Song, lq: Seq<char>) -> bool {
    ||| is_substring(lq, lower_of(s.title@))
    ||| is_substring(lq, lower_of(s.artist@))
    ||| is_substring(lq, lower_of(s.album@))
}

/// The ordered subsequence of `songs` that matches the query `q`, lower-cased.
pub open spec fn search_result(songs: Seq<Song>, q: Seq<char>) -> Seq<Song> {
    songs.filter(|s: Song| song_matches(s, lower_of(q)))
}

/// `p` occurs in `t` exactly at position `i`.
fn occurs_at_index(t: &str, p: &str, tl: usize, pl: usize, i: usize) -> (r: bool)
    requires
        tl == t@.len(),
        pl == p@.len(),
        i + pl <= tl,
    ensures
        r == occurs_at(t@, p@, i as int),
{
    let mut j: usize = 0;
    while j < pl
        invariant
            tl == t@.len(),
            pl == p@.len(),
            i + pl <= tl,
            j <= pl,
            forall|x: int| 0 <= x < j ==> t@[i + x] == p@[x],
        decreases pl - j,
    {
        if t.get_char(i + j) != p.get_char(j) {
            assert(t@.subrange(i as int, i + pl) != p@) by {
                assert(t@.subrange(i as int, i + pl)[j as int] == t@[i + j]);
            };
            return false;
        }
        j = j + 1;
    }
    assert(t@.subrange(i as int, i + pl) =~= p@);
    true
}

/// `p` occurs somewhere in `t`: a scan over every start position.
fn contains_substring(t: &str, p: &str) -> (r: bool)
    ensures
        r == is_substring(p@, t@),
{
    let tl = t.unicode_len();
    let pl = p.unicode_len();
    if pl > tl {
        assert(!is_substring(p@, t@)) by {
            assert(forall|i: int| !occurs_at(t@, p@, i));
        };
        return false;
    }
    let mut i: usize = 0;
    loop
        invariant
            tl == t@.len(),
            pl == p@.len(),
            pl <= tl,
            i <= tl - pl,
            forall|x: int| 0 <= x < i ==> !occurs_at(t@, p@, x),
        decreases tl - pl - i,
    {
        if occurs_at_index(t, p, tl, pl, i) {
            assert(is_substring(p@, t@));
            return true;
        }
        if i == tl - pl {
            assert(forall|x: int| occurs_at(t@, p@, x) ==> 0 <= x <= tl - pl);
            assert(!is_substring(p@, t@));
            return false;
        }
        i = i + 1;
    }
}

/// Whether one song matches the lower-cased query `lq`.
fn matches_song(song: &Song, lq: &str) -> (r: bool)
    ensures
        r == song_matches(*song, lq@),
{
    let lt = to_lowercase(song.title.as_str());
    if contains_substring(lt.as_str(), lq) {
        return true;
    }
    let la = to_lowercase(song.artist.as_str());
    if contains_substring(la.as_str(), lq) {
        return true;
    }
    let lb = to_lowercase(song.album.as_str());
    contains_substring(lb.as_str(), lq)
}

/// Filters `songs` down to those matching `query`, case-insensitively, in
/// their original order. An empty query keeps every song.
pub fn search_songs<'a>(songs: &'a Vec<Song>, query: &str) -> (r: Vec<&'a Song>)
    ensures
        r@.map_values(|s: &Song| *s) == search_result(songs@, query@),
        query@.len() == 0 ==> r@.map_values(|s: &Song| *s) == songs@,
{
    broadcast use group_seq_properties;

    let lq = to_lowercase(query);
    let ghost pred = |s: Song| song_matches(s, lower_of(query@));
    let mut out: Vec<&'a Song> = Vec::new();
    assert(out@.map_values(|s: &Song| *s) =~= songs@.take(0).filter(pred));
    let mut idx: usize = 0;
    while idx < songs.len()
        invariant
            idx <= songs.len(),
            lq@ == lower_of(query@),
            out@.map_values(|s: &Song| *s) == songs@.take(idx as int).filter(pred),
            pred == (|s: Song| song_matches(s, lower_of(query@))),
        decreases songs.len() - idx,
    {
        let ghost prev = out@;
        if matches_song(&songs[idx], lq.as_str()) {
            out.push(&songs[idx]);
            assert(out@.map_values(|s: &Song| *s) =~= prev.map_values(|s: &Song| *s).push(
                songs@[idx as int],
            ));
        }
        idx = idx + 1;
        proof {
            assert(songs@.take(idx as int).drop_last() =~= songs@.take(idx as int - 1));
            assert(songs@.take(idx as int).last() == songs@[idx as int - 1]);
            reveal(Seq::filter);
            assert(out@.map_values(|s: &Song| *s) =~= songs@.take(idx as int).filter(pred));
        }
    }
    proof {
        assert(songs@.take(songs@.len() as int) =~= songs@);
        if query@.len() == 0 {
            assert(lower_of(query@).len() == 0);
            assert(lower_of(query@) =~= Seq::<char>::empty());
            assert(forall|s: Song| #[trigger] pred(s)) by {
                assert(forall|s: Song| occurs_at(lower_of(s.title@), lower_of(query@), 0));
            };
            lemma_filter_all(songs@, pred);
        }
    }
    out
}

/// Every element a filter keeps satisfies the predicate, so filtering keeps
/// everything when the predicate always holds.
proof fn lemma_filter_all<A>(s: Seq<A>, pred: spec_fn(A) -> bool)
    requires
        forall|x: A| #[trigger] pred(x),
    ensures
        s.filter(pred) == s,
    decreases s.len(),
{
    reveal(Seq::filter);
    if s.len() > 0 {
        lemma_filter_all(s.drop_last(), pred);
        assert(s.drop_last().filter(pred).push(s.last()) =~= s);
    }
}

/// Filtering is idempotent: searching the result of a search with the same
/// query returns it unchanged.
pub proof fn lemma_search_idempotent(songs: Seq<Song>, q: Seq<char>)
    ensures
        search_result(search_result(songs, q), q) == search_result(songs, q),
{
    let pred = |s: Song| song_matches(s, lower_of(q));
    let once = songs.filter(pred);
    assert forall|i: int| 0 <= i < once.len() implies pred(#[trigger] once[i]) by {
        songs.lemma_filter_pred(pred, i);
    }
    lemma_filter_contains_all(once, pred);
}

/// A filter whose predicate holds of every element of `s` keeps all of `s`.
proof fn lemma_filter_contains_all<A>(s: Seq<A>, pred: spec_fn(A) -> bool)
    requires
        forall|i: int| 0 <= i < s.len() ==> pred(#[trigger] s[i]),
    ensures
        s.filter(pred) == s,
    decreases s.len(),
{
    reveal(Seq::filter);
    if s.len() > 0 {
        assert(forall|i: int|
            0 <= i < s.drop_last().len() ==> pred(#[trigger] s.drop_last()[i]));
        lemma_filter_contains_all(s.drop_last(), pred);
        assert(s.drop_last().filter(pred).push(s.last()) =~= s);
    }
}

} // verus!
