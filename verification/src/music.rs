//! Songs and playlists: what the bot asks the downloader for and what it remembers.
use vstd::prelude::*;
use crate::text::{append, chars_of, split_on, split_text};
use std::collections::HashMap;

verus! {

broadcast use vstd::string::group_string_axioms;

/// What `String::from_utf8_lossy` makes of bytes (invalid sequences become U+FFFD).
pub uninterp spec fn lossy_text(bytes: Seq<u8>) -> Seq<char>;

/// What `serde_json` finds under the key "title" of a JSON object text: the string there, or
/// `None` where the text is not JSON or holds no string under "title".
pub uninterp spec fn json_title(text: Seq<char>) -> Option<Seq<char>>;

/// Trusted: `String::from_utf8_lossy` decodes the bytes as UTF-8, a function of the bytes alone.
#[verifier::external_body]
fn decode_lossy(bytes: &Vec<u8>) -> (s: String)
    ensures
        s@ == lossy_text(bytes@),
{
    String::from_utf8_lossy(bytes.as_slice()).into_owned()
}

/// Trusted: `serde_json::from_str::<Value>` parses the text; indexing with "title" and
/// `as_str` then pick the string there. The answer is a function of the text alone.
#[verifier::external_body]
fn title_field(text: &str) -> (r: Option<String>)
    ensures
        match r {
            Some(t) => json_title(text@) == Some(t@),
            None => json_title(text@) is None,
        },
{
    match serde_json::from_str::<serde_json::Value>(text) {
        Ok(json) => json["title"].as_str().map(|t| t.to_owned()),
        Err(_) => None,
    }
}

/// The title in the downloader's JSON output (the bytes it printed).
pub fn get_title_music(stdout: &Vec<u8>) -> (t: String)
    requires
        json_title(lossy_text(stdout@)) is Some,
    ensures
        Some(t@) == json_title(lossy_text(stdout@)),
{
    let text = decode_lossy(stdout);
    title_field(text.as_str()).unwrap()
}

/// The title in the downloader's JSON output; `None` where the output holds no title.
pub fn find_title_music(stdout: &Vec<u8>) -> (r: Option<String>)
    ensures
        match r {
            Some(t) => json_title(lossy_text(stdout@)) == Some(t@),
            None => json_title(lossy_text(stdout@)) is None,
        },
{
    let text = decode_lossy(stdout);
    if title_field(text.as_str()).is_some() {
        Some(get_title_music(stdout))
    } else {
        None
    }
}

/// Whether `s` starts with `p`.
pub open spec fn starts_with(s: Seq<char>, p: Seq<char>) -> bool {
    p.len() <= s.len() && s.take(p.len() as int) == p
}

/// Whether the request is a link (it starts with "http") rather than words to search for.
pub fn is_url(url: &String) -> (b: bool)
    ensures
        b == starts_with(url@, "http"@),
{
    let s = chars_of(url.as_str());
    let p = chars_of("http");
    proof {
        reveal_strlit("http");
    }
    if p.len() > s.len() {
        return false;
    }
    let mut i: usize = 0;
    while i < p.len()
        invariant
            i <= p.len() <= s.len(),
            s@ == url@,
            p@ == "http"@,
            forall|k: int| 0 <= k < i ==> s@[k] == p@[k],
        decreases p.len() - i,
    {
        if s[i] != p[i] {
            assert(s@.take(p.len() as int)[i as int] != p@[i as int]);
            return false;
        }
        i = i + 1;
    }
    assert(s@.take(p.len() as int) =~= p@);
    true
}

/// What the downloader is asked for: a link as it is, words as a search.
pub fn download_target(url: &String) -> (t: String)
    ensures
        t@ == if starts_with(url@, "http"@) { url@ } else { "ytsearch:"@ + url@ },
{
    if is_url(url) {
        url.clone()
    } else {
        let mut t = "ytsearch:".to_owned();
        append(&mut t, url.as_str());
        t
    }
}

/// The titles played so far with `title` added, each followed by ";".
pub fn add_title(titles: &mut String, title: &String)
    ensures
        final(titles)@ == old(titles)@ + title@ + ";"@,
{
    append(titles, title.as_str());
    append(titles, ";");
}

/// The songs of a playlist: its text cut at every ";".
pub fn playlist_songs(lista: &String) -> (v: Vec<String>)
    ensures
        v.deep_view() == split_on(lista@, ';'),
{
    split_text(lista, ';')
}

/// The position of the first playlist named `name`; `entries.len()` where there is none.
pub open spec fn playlist_index(entries: Seq<(Seq<char>, Seq<char>)>, name: Seq<char>) -> nat
    decreases entries.len(),
{
    if entries.len() == 0 {
        0
    } else {
        let r = playlist_index(entries.drop_last(), name);
        if r < entries.len() - 1 {
            r
        } else if entries.last().0 == name {
            (entries.len() - 1) as nat
        } else {
            entries.len()
        }
    }
}

proof fn lemma_playlist_index_stable(s: Seq<(Seq<char>, Seq<char>)>, c: Seq<char>, m: int)
    requires
        0 <= m <= s.len(),
        playlist_index(s.take(m), c) < m,
    ensures
        playlist_index(s, c) == playlist_index(s.take(m), c),
    decreases s.len() - m,
{
    if s.len() == m {
        assert(s.take(m) =~= s);
    } else {
        let t = s.drop_last();
        assert(t.take(m) =~= s.take(m));
        lemma_playlist_index_stable(t, c, m);
    }
}

proof fn lemma_playlist_index_found(s: Seq<(Seq<char>, Seq<char>)>, c: Seq<char>)
    requires
        playlist_index(s, c) < s.len(),
    ensures
        s[playlist_index(s, c) as int].0 == c,
    decreases s.len(),
{
    let t = s.drop_last();
    if playlist_index(t, c) < t.len() {
        lemma_playlist_index_found(t, c);
    }
}

/// The playlists after saving `name` with `songs`: the playlist of that name changes, or a
/// new one comes last.
pub open spec fn saved(entries: Seq<(Seq<char>, Seq<char>)>, name: Seq<char>, songs: Seq<char>) -> Seq<(Seq<char>, Seq<char>)> {
    if playlist_index(entries, name) < entries.len() {
        entries.update(playlist_index(entries, name) as int, (name, songs))
    } else {
        entries.push((name, songs))
    }
}

proof fn lemma_playlist_index_same(s: Seq<(Seq<char>, Seq<char>)>, u: Seq<(Seq<char>, Seq<char>)>, c: Seq<char>)
    requires
        s.len() == u.len(),
        forall|i: int| 0 <= i < s.len() ==> (#[trigger] s[i]).0 == u[i].0,
    ensures
        playlist_index(s, c) == playlist_index(u, c),
    decreases s.len(),
{
    if s.len() > 0 {
        lemma_playlist_index_same(s.drop_last(), u.drop_last(), c);
    }
}

/// A saved playlist is found again under its name, with the songs it was saved with.
pub proof fn lemma_saved_playlist_found(entries: Seq<(Seq<char>, Seq<char>)>, name: Seq<char>, songs: Seq<char>)
    ensures
        playlist_index(saved(entries, name, songs), name) < saved(entries, name, songs).len(),
        saved(entries, name, songs)[playlist_index(saved(entries, name, songs), name) as int].1 == songs,
{
    let k = playlist_index(entries, name);
    let u = saved(entries, name, songs);
    if k < entries.len() {
        lemma_playlist_index_found(entries, name);
        lemma_playlist_index_same(entries, u, name);
    } else {
        assert(u.drop_last() =~= entries);
        assert(playlist_index(u, name) == entries.len());
    }
}

/// The map from playlist names to their songs that `entries` describe.
pub open spec fn playlist_map(entries: Seq<(Seq<char>, Seq<char>)>) -> Map<Seq<char>, Seq<char>>
    decreases entries.len(),
{
    if entries.len() == 0 {
        Map::empty()
    } else {
        playlist_map(entries.drop_last()).insert(entries.last().0, entries.last().1)
    }
}

/// No two playlists of `entries` share a name.
pub open spec fn names_distinct(entries: Seq<(Seq<char>, Seq<char>)>) -> bool {
    forall|i: int, j: int| 0 <= i < j < entries.len() ==> entries[i].0 != entries[j].0
}

proof fn lemma_playlist_index_absent(s: Seq<(Seq<char>, Seq<char>)>, c: Seq<char>)
    requires
        playlist_index(s, c) == s.len(),
    ensures
        forall|i: int| 0 <= i < s.len() ==> (#[trigger] s[i]).0 != c,
    decreases s.len(),
{
    if s.len() > 0 {
        let t = s.drop_last();
        lemma_playlist_index_absent(t, c);
        assert forall|i: int| 0 <= i < s.len() implies (#[trigger] s[i]).0 != c by {
            if i < t.len() {
                assert(s[i] == t[i]);
            }
        }
    }
}

/// With distinct names, the map of the playlists holds a name exactly where the name is found,
/// with the songs found there.
proof fn lemma_map_lookup(e: Seq<(Seq<char>, Seq<char>)>, k: Seq<char>)
    requires
        names_distinct(e),
    ensures
        playlist_map(e).dom().contains(k) <==> playlist_index(e, k) < e.len(),
        playlist_index(e, k) < e.len() ==> playlist_map(e)[k] == e[playlist_index(e, k) as int].1,
    decreases e.len(),
{
    if e.len() > 0 {
        let t = e.drop_last();
        assert(names_distinct(t)) by {
            assert forall|i: int, j: int| 0 <= i < j < t.len() implies t[i].0 != t[j].0 by {
                assert(t[i] == e[i] && t[j] == e[j]);
            }
        }
        lemma_map_lookup(t, k);
        let r = playlist_index(t, k);
        if r < t.len() {
            lemma_playlist_index_found(t, k);
            assert(e[r as int] == t[r as int]);
            assert(e[r as int].0 != e[e.len() - 1].0);
        }
    }
}

/// Saving a playlist into playlists of distinct names keeps the names distinct and sets that
/// name in their map.
proof fn lemma_saved_map(e: Seq<(Seq<char>, Seq<char>)>, n: Seq<char>, songs: Seq<char>)
    requires
        names_distinct(e),
    ensures
        names_distinct(saved(e, n, songs)),
        playlist_map(saved(e, n, songs)) == playlist_map(e).insert(n, songs),
{
    let u = saved(e, n, songs);
    let k0 = playlist_index(e, n);
    if k0 < e.len() {
        lemma_playlist_index_found(e, n);
        assert forall|i: int| 0 <= i < u.len() implies (#[trigger] u[i]).0 == e[i].0 by {}
        assert(names_distinct(u)) by {
            assert forall|i: int, j: int| 0 <= i < j < u.len() implies u[i].0 != u[j].0 by {
                assert(u[i].0 == e[i].0 && u[j].0 == e[j].0);
            }
        }
    } else {
        lemma_playlist_index_absent(e, n);
        assert(u.drop_last() =~= e);
        assert(names_distinct(u)) by {
            assert forall|i: int, j: int| 0 <= i < j < u.len() implies u[i].0 != u[j].0 by {
                if j < e.len() {
                    assert(u[i] == e[i] && u[j] == e[j]);
                } else {
                    assert(u[i] == e[i]);
                }
            }
        }
    }
    let target = playlist_map(e).insert(n, songs);
    assert forall|k: Seq<char>| #[trigger] playlist_map(u).dom().contains(k) <==> target.dom().contains(k) by {
        lemma_map_lookup(u, k);
        lemma_map_lookup(e, k);
        if k == n {
            lemma_saved_playlist_found(e, n, songs);
        } else if k0 < e.len() {
            lemma_playlist_index_same(e, u, k);
        } else {
            assert(u.drop_last() =~= e);
        }
    }
    assert forall|k: Seq<char>| #[trigger] playlist_map(u).dom().contains(k) implies playlist_map(u)[k] == target[k] by {
        lemma_map_lookup(u, k);
        lemma_map_lookup(e, k);
        if k == n {
            lemma_saved_playlist_found(e, n, songs);
        } else if k0 < e.len() {
            lemma_playlist_index_same(e, u, k);
            lemma_playlist_index_found(e, k);
        } else {
            assert(u.drop_last() =~= e);
            assert(u[playlist_index(e, k) as int] == e[playlist_index(e, k) as int]);
        }
    }
    assert(playlist_map(u) =~= target);
}

/// What `serde_json::from_str::<HashMap<String, String>>` makes of a text: the map, or `None`
/// where the text is not a JSON object of strings.
pub uninterp spec fn json_playlists(text: Seq<char>) -> Option<Map<Seq<char>, Seq<char>>>;

/// A user's playlists: each name once, with its songs (separated by ";").
pub struct Playlists {
    entries: Vec<(String, String)>,
}

impl Playlists {
    #[verifier::type_invariant]
    spec fn well_formed(self) -> bool {
        names_distinct(self@)
    }
}

impl View for Playlists {
    type V = Seq<(Seq<char>, Seq<char>)>;

    closed spec fn view(&self) -> Seq<(Seq<char>, Seq<char>)> {
        self.entries@.map_values(|e: (String, String)| (e.0@, e.1@))
    }
}

impl Playlists {
    /// No playlist.
    pub fn new() -> (p: Playlists)
        ensures
            p@ == Seq::<(Seq<char>, Seq<char>)>::empty(),
    {
        let p = Playlists { entries: Vec::new() };
        assert(p@ =~= Seq::<(Seq<char>, Seq<char>)>::empty());
        p
    }

    fn index_of(&self, name: &String) -> (k: usize)
        ensures
            k == playlist_index(self@, name@),
            k <= self@.len(),
    {
        let ghost s = self@;
        let mut i: usize = 0;
        while i < self.entries.len()
            invariant
                i <= self.entries.len(),
                s == self@,
                s.len() == self.entries.len(),
                playlist_index(s.take(i as int), name@) == i,
            decreases self.entries.len() - i,
        {
            proof {
                assert(s.take(i + 1).drop_last() =~= s.take(i as int));
                assert(s[i as int].0 == self.entries@[i as int].0@);
            }
            if self.entries[i].0 == *name {
                proof {
                    lemma_playlist_index_stable(s, name@, i + 1);
                }
                return i;
            }
            i = i + 1;
        }
        assert(s.take(s.len() as int) =~= s);
        self.entries.len()
    }

    /// The songs of the playlist `name`, if there is one.
    pub fn get(&self, name: &String) -> (r: Option<String>)
        ensures
            match r {
                Some(songs) => playlist_index(self@, name@) < self@.len()
                    && songs@ == self@[playlist_index(self@, name@) as int].1,
                None => playlist_index(self@, name@) == self@.len(),
            },
    {
        let k = self.index_of(name);
        if k < self.entries.len() {
            proof {
                assert(self@[k as int].1 == self.entries@[k as int].1@);
            }
            Some(self.entries[k].1.clone())
        } else {
            None
        }
    }

    /// Saves the playlist `nome` with the songs `musicas`: it replaces the playlist of that
    /// name, or comes last.
    pub fn insert(&mut self, nome: String, musicas: String)
        ensures
            final(self)@ == saved(old(self)@, nome@, musicas@),
    {
        proof {
            use_type_invariant(&*self);
            lemma_saved_map(self@, nome@, musicas@);
        }
        let ghost before = self@;
        let k = self.index_of(&nome);
        let mut entries: Vec<(String, String)> = Vec::new();
        std::mem::swap(&mut entries, &mut self.entries);
        if k < entries.len() {
            entries.set(k, (nome, musicas));
        } else {
            entries.push((nome, musicas));
        }
        assert(entries@.map_values(|e: (String, String)| (e.0@, e.1@)) =~= saved(before, nome@, musicas@));
        self.entries = entries;
    }
}

/// The playlists after `create_playlist`: the stored ones (none where nothing could be read)
/// with `nome` saved.
pub fn playlists_after_create(stored: Option<Playlists>, nome: String, musicas: String) -> (p: Playlists)
    ensures
        p@ == saved(
            match stored {
                Some(q) => q@,
                None => Seq::<(Seq<char>, Seq<char>)>::empty(),
            },
            nome@,
            musicas@,
        ),
{
    let mut p = match stored {
        Some(q) => q,
        None => Playlists::new(),
    };
    p.insert(nome, musicas);
    p
}

/// Reads a user's stored playlists.
///
/// Trusted: `serde_json::from_str::<HashMap<String, String>>` parses a JSON object of
/// strings, a function of the text alone; the map's entries are then listed, each name once,
/// in an order that the map's hashing decides (left open here).
#[verifier::external_body]
fn parse_playlists(text: &str) -> (r: Option<Playlists>)
    ensures
        match r {
            Some(p) => json_playlists(text@) == Some(playlist_map(p@)),
            None => json_playlists(text@) is None,
        },
{
    match serde_json::from_str::<HashMap<String, String>>(text) {
        Ok(map) => Some(Playlists { entries: map.into_iter().collect() }),
        Err(_) => None,
    }
}

/// Writes a user's playlists for storage.
///
/// Trusted: `serde_json::to_string` writes the map of the entries as a JSON object of strings
/// (which always serializes), and parsing that text gives the same map back; the order of the
/// keys in the text is left open (the map's hashing decides it).
#[verifier::external_body]
fn playlists_json(p: &Playlists) -> (s: String)
    ensures
        json_playlists(s@) == Some(playlist_map(p@)),
{
    let map: HashMap<String, String> = p.entries.iter().cloned().collect();
    serde_json::to_string(&map).unwrap_or_default()
}

/// The songs of the playlist `nome` in the text kept for a user's playlists; `None` where the
/// text is not a JSON object of strings (nothing kept reads as "") or holds no playlist of that
/// name.
pub fn stored_playlist(stored: &str, nome: &String) -> (r: Option<String>)
    ensures
        match json_playlists(stored@) {
            Some(m) => match r {
                Some(songs) => m.dom().contains(nome@) && m[nome@] == songs@,
                None => !m.dom().contains(nome@),
            },
            None => r is None,
        },
{
    match parse_playlists(stored) {
        Some(p) => {
            proof {
                use_type_invariant(&p);
                lemma_map_lookup(p@, nome@);
            }
            p.get(nome)
        },
        None => None,
    }
}

/// The text kept for a user's playlists after `create_playlist` saves `nome` with `musicas`,
/// from the text kept before: the stored playlists with `nome` set to `musicas`, or that
/// playlist alone where the kept text is not a JSON object of strings (nothing kept reads as
/// "").
pub fn playlists_text_after_create(stored: &str, nome: String, musicas: String) -> (s: String)
    ensures
        json_playlists(s@) == Some(
            match json_playlists(stored@) {
                Some(m) => m.insert(nome@, musicas@),
                None => Map::<Seq<char>, Seq<char>>::empty().insert(nome@, musicas@),
            },
        ),
{
    let parsed = parse_playlists(stored);
    let ghost before = match &parsed {
        Some(q) => q@,
        None => Seq::<(Seq<char>, Seq<char>)>::empty(),
    };
    proof {
        if let Some(q) = &parsed {
            use_type_invariant(q);
        }
        assert(playlist_map(Seq::<(Seq<char>, Seq<char>)>::empty()) =~= Map::<Seq<char>, Seq<char>>::empty());
        lemma_saved_map(before, nome@, musicas@);
    }
    let p = playlists_after_create(parsed, nome, musicas);
    playlists_json(&p)
}

} // verus!
