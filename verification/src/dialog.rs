//! What the file dialogs behind FileIO's displayOpen and displaySave
//! compute: the glob patterns of a FileIO filter mask, the extensions they
//! name, and whether a file name passes them.
use vstd::prelude::*;
use crate::text::{lowercase, to_lowercase, trimmed, trim, split, views_of,
    split_at_char, has_char, chars_of};

verus! {

/// The views of a list of strings.
pub open spec fn strings_of(v: Seq<String>) -> Seq<Seq<char>> {
    v.map_values(|s: String| s@)
}

/// A mask entry is taken as a pattern when it holds `*`, `?` or `.`.
pub open spec fn is_glob_like(p: Seq<char>) -> bool {
    p.contains('*') || p.contains('?') || p.contains('.')
}

/// `*.*` and `*`, which a mask uses to mean "all files".
pub open spec fn matches_everything(p: Seq<char>) -> bool {
    p == seq!['*', '.', '*'] || p == seq!['*']
}

/// The entries at odd positions: the patterns of `description,pattern` pairs.
pub open spec fn odd_entries(parts: Seq<Seq<char>>) -> Seq<Seq<char>> {
    Seq::new(parts.len() / 2, |k: int| parts[2 * k + 1])
}

/// The pattern entries of a mask: its comma-separated parts, trimmed; of
/// two or more, those in pattern position; a lone entry as it is.
pub open spec fn mask_entries(mask: Seq<char>) -> Seq<Seq<char>> {
    let parts = split(mask, ',').map_values(|p: Seq<char>| trimmed(p));
    if parts.len() >= 2 {
        odd_entries(parts)
    } else {
        parts
    }
}

/// The `;`-separated patterns of one entry, trimmed and lower-cased.
pub open spec fn entry_pieces(entry: Seq<char>) -> Seq<Seq<char>> {
    split(entry, ';').map_values(|p: Seq<char>| lowercase(trimmed(p)))
}

/// The patterns of all entries, in order.
pub open spec fn pieces_of(entries: Seq<Seq<char>>) -> Seq<Seq<char>>
    decreases entries.len(),
{
    if entries.len() == 0 {
        Seq::empty()
    } else {
        pieces_of(entries.drop_last()) + entry_pieces(entries.last())
    }
}

/// The glob-like pieces, each kept at its first occurrence.
pub open spec fn gather(pieces: Seq<Seq<char>>) -> Seq<Seq<char>>
    decreases pieces.len(),
{
    if pieces.len() == 0 {
        Seq::empty()
    } else {
        let g = gather(pieces.drop_last());
        let p = pieces.last();
        if is_glob_like(p) && !g.contains(p) {
            g.push(p)
        } else {
            g
        }
    }
}

/// The patterns of a FileIO filter mask: none when one of them matches
/// every name (no filter), else the glob-like pieces in order, without repeats.
pub open spec fn mask_patterns_of(mask: Seq<char>) -> Seq<Seq<char>> {
    let pats = gather(pieces_of(mask_entries(mask)));
    if exists|i: int| 0 <= i < pats.len() && matches_everything(#[trigger] pats[i]) {
        Seq::empty()
    } else {
        pats
    }
}

/// What `gather` keeps: exactly the glob-like pieces, each once.
pub proof fn lemma_gather(pieces: Seq<Seq<char>>)
    ensures
        gather(pieces).no_duplicates(),
        forall|p: Seq<char>| #[trigger] gather(pieces).contains(p) <==> pieces.contains(p) && is_glob_like(p),
    decreases pieces.len(),
{
    if pieces.len() > 0 {
        let prev = pieces.drop_last();
        lemma_gather(prev);
        let g = gather(prev);
        let p = pieces.last();
        assert forall|q: Seq<char>| #[trigger] gather(pieces).contains(q) <==> pieces.contains(q) && is_glob_like(q) by {
            if pieces.contains(q) {
                let i = choose|i: int| 0 <= i < pieces.len() && pieces[i] == q;
                if i < pieces.len() - 1 {
                    assert(prev[i] == q);
                }
            }
            if prev.contains(q) {
                let i = choose|i: int| 0 <= i < prev.len() && prev[i] == q;
                assert(pieces[i] == q);
            }
            if is_glob_like(p) && !g.contains(p) {
                assert(g.push(p).last() == p);
                if g.push(p).contains(q) && q != p {
                    let i = choose|i: int| 0 <= i < g.push(p).len() && g.push(p)[i] == q;
                    assert(g[i] == q);
                }
                if g.contains(q) {
                    let i = choose|i: int| 0 <= i < g.len() && g[i] == q;
                    assert(g.push(p)[i] == q);
                }
            }
        }
        if is_glob_like(p) && !g.contains(p) {
            assert forall|i: int, j: int| 0 <= i < j < g.push(p).len() implies g.push(p)[i] != g.push(p)[j] by {
                if j == g.len() {
                    assert(g.contains(g[i]));
                }
            }
        }
    }
}

/// The views of `v` followed by one more string.
proof fn lemma_strings_push(v: Seq<String>, s: String)
    ensures
        strings_of(v.push(s)) == strings_of(v).push(s@),
{
    assert(strings_of(v.push(s)) =~= strings_of(v).push(s@));
}

/// `s` is among the strings of `v`.
fn contains_string(v: &Vec<String>, s: &String) -> (r: bool)
    ensures
        r == strings_of(v@).contains(s@),
{
    let mut i: usize = 0;
    while i < v.len()
        invariant
            i <= v@.len(),
            forall|j: int| 0 <= j < i ==> v@[j]@ != s@,
        decreases v.len() - i,
    {
        if v[i] == *s {
            assert(strings_of(v@)[i as int] == s@);
            return true;
        }
        i = i + 1;
    }
    proof {
        if strings_of(v@).contains(s@) {
            let j = choose|j: int| 0 <= j < strings_of(v@).len() && strings_of(v@)[j] == s@;
            assert(v@[j]@ == s@);
        }
    }
    false
}

/// `p` matches every name.
fn is_match_all(p: &String) -> (r: bool)
    ensures
        r == matches_everything(p@),
{
    let s = p.as_str();
    let n = s.unicode_len();
    if n == 1 {
        let r = s.get_char(0) == '*';
        proof {
            if r {
                assert(p@ =~= seq!['*']);
            }
        }
        r
    } else if n == 3 {
        let r = s.get_char(0) == '*' && s.get_char(1) == '.' && s.get_char(2) == '*';
        proof {
            if r {
                assert(p@ =~= seq!['*', '.', '*']);
            }
        }
        r
    } else {
        false
    }
}

/// The glob patterns in a FileIO filter mask, lower-cased.
///
/// On Windows the mask is `description,pattern` pairs separated by commas,
/// and one pattern entry may hold several patterns separated by `;`
/// ("Text files,*.txt;*.log,All files,*.*"). A lone entry that looks like a
/// pattern is taken as one. A Mac mask is a four-letter file type ("TEXT"),
/// which says nothing about names: no patterns, every file matches.
pub fn mask_patterns(mask: &str) -> (patterns: Vec<String>)
    ensures
        strings_of(patterns@) == mask_patterns_of(mask@),
        strings_of(patterns@).no_duplicates(),
        forall|i: int|
            0 <= i < patterns@.len() ==> is_glob_like(#[trigger] patterns@[i]@) && !matches_everything(
                patterns@[i]@,
            ),
{
    let raw = split_at_char(mask, ',');
    let mut parts: Vec<&str> = Vec::new();
    let ghost raw_v = views_of(raw@);
    for k in 0..raw.len()
        invariant
            raw_v == views_of(raw@),
            views_of(parts@) == raw_v.take(k as int).map_values(|p: Seq<char>| trimmed(p)),
    {
        let t = trim(raw[k]);
        let ghost parts0 = parts@;
        parts.push(t);
        proof {
            assert(views_of(parts@) =~= views_of(parts0).push(t@));
            assert(raw_v.take(k + 1).map_values(|p: Seq<char>| trimmed(p)) =~= raw_v.take(k as int).map_values(
                |p: Seq<char>| trimmed(p),
            ).push(trimmed(raw_v[k as int])));
        }
    }
    let ghost parts_v = split(mask@, ',').map_values(|p: Seq<char>| trimmed(p));
    proof {
        assert(raw_v.take(raw@.len() as int) =~= raw_v);
        assert(views_of(parts@) =~= parts_v);
    }
    let entries: Vec<&str> = if parts.len() >= 2 {
        let mut odd: Vec<&str> = Vec::new();
        let mut j: usize = 1;
        while j < parts.len()
            invariant
                views_of(parts@) == parts_v,
                j % 2 == 1,
                1 <= j <= parts@.len() + 1,
                views_of(odd@) == odd_entries(parts_v).take((j / 2) as int),
                (j / 2) <= odd_entries(parts_v).len(),
            decreases parts.len() + 1 - j,
        {
            let ghost odd0 = odd@;
            odd.push(parts[j]);
            proof {
                assert(views_of(odd@) =~= views_of(odd0).push(parts@[j as int]@));
                assert(odd_entries(parts_v).take((j / 2) + 1) =~= odd_entries(parts_v).take((j / 2) as int).push(
                    parts_v[j as int],
                ));
            }
            j = j + 2;
        }
        proof {
            assert(odd_entries(parts_v).take((j / 2) as int) =~= odd_entries(parts_v));
        }
        odd
    } else {
        parts
    };
    let ghost entries_v = views_of(entries@);
    assert(entries_v == mask_entries(mask@));
    let mut patterns: Vec<String> = Vec::new();
    for j in 0..entries.len()
        invariant
            entries_v == views_of(entries@),
            strings_of(patterns@) == gather(pieces_of(entries_v.take(j as int))),
    {
        let pieces = split_at_char(entries[j], ';');
        let ghost done = pieces_of(entries_v.take(j as int));
        let ghost these = entry_pieces(entries_v[j as int]);
        proof {
            assert(these =~= views_of(pieces@).map_values(|p: Seq<char>| lowercase(trimmed(p))));
            assert(done + these.take(0) =~= done);
        }
        for k in 0..pieces.len()
            invariant
                these == views_of(pieces@).map_values(|p: Seq<char>| lowercase(trimmed(p))),
                strings_of(patterns@) == gather(done + these.take(k as int)),
        {
            let p = to_lowercase(trim(pieces[k]));
            assert(p@ == these[k as int]);
            let ghost prefix = done + these.take(k as int);
            proof {
                assert((done + these.take(k + 1)).drop_last() =~= prefix);
                assert((done + these.take(k + 1)).last() == p@);
            }
            let glob_like = has_char(p.as_str(), '*') || has_char(p.as_str(), '?') || has_char(p.as_str(), '.');
            if glob_like {
                if !contains_string(&patterns, &p) {
                    proof {
                        lemma_strings_push(patterns@, p);
                    }
                    patterns.push(p);
                }
            }
        }
        proof {
            assert(these.take(pieces@.len() as int) =~= these);
            assert(entries_v.take(j + 1).drop_last() =~= entries_v.take(j as int));
        }
    }
    proof {
        assert(entries_v.take(entries@.len() as int) =~= entries_v);
        lemma_gather(pieces_of(entries_v));
    }
    let mut i: usize = 0;
    while i < patterns.len()
        invariant
            i <= patterns@.len(),
            strings_of(patterns@) == gather(pieces_of(mask_entries(mask@))),
            strings_of(patterns@).no_duplicates(),
            forall|p: Seq<char>| #[trigger] strings_of(patterns@).contains(p) ==> is_glob_like(p),
            forall|j: int| 0 <= j < i ==> !matches_everything(#[trigger] strings_of(patterns@)[j]),
        decreases patterns.len() - i,
    {
        if is_match_all(&patterns[i]) {
            proof {
                let pats = gather(pieces_of(mask_entries(mask@)));
                assert(pats[i as int] == patterns@[i as int]@);
                assert(matches_everything(pats[i as int]));
            }
            let none: Vec<String> = Vec::new();
            proof {
                assert(strings_of(none@) =~= Seq::<Seq<char>>::empty());
            }
            return none;
        }
        i = i + 1;
    }
    proof {
        assert forall|i: int| 0 <= i < patterns@.len() implies is_glob_like(#[trigger] patterns@[i]@)
            && !matches_everything(patterns@[i]@) by {
            assert(strings_of(patterns@)[i] == patterns@[i]@);
            assert(strings_of(patterns@).contains(strings_of(patterns@)[i]));
        }
        let pats = gather(pieces_of(mask_entries(mask@)));
        assert(!exists|i: int| 0 <= i < pats.len() && matches_everything(#[trigger] pats[i]));
    }
    patterns
}

/// The extension a pattern names, like `mim` for `*.mim`: what follows a
/// leading `*.`, when it is not empty and holds no `*`, `?` or `.`.
pub open spec fn extension_of(p: Seq<char>) -> Option<Seq<char>> {
    if p.len() >= 2 && p[0] == '*' && p[1] == '.' && p.len() > 2 && !is_glob_like(p.skip(2)) {
        Some(p.skip(2))
    } else {
        None
    }
}

/// The extensions the patterns name, in order, each once.
pub open spec fn extensions_of(patterns: Seq<Seq<char>>) -> Seq<Seq<char>>
    decreases patterns.len(),
{
    if patterns.len() == 0 {
        Seq::empty()
    } else {
        let g = extensions_of(patterns.drop_last());
        match extension_of(patterns.last()) {
            Some(e) => if g.contains(e) {
                g
            } else {
                g.push(e)
            },
            None => g,
        }
    }
}

/// The extensions the patterns name, like "mim" for "*.mim", for the
/// browser's own file picker.
pub fn mask_extensions(patterns: &[String]) -> (out: Vec<String>)
    ensures
        strings_of(out@) == extensions_of(strings_of(patterns@)),
{
    let ghost pv = strings_of(patterns@);
    let mut out: Vec<String> = Vec::new();
    for i in 0..patterns.len()
        invariant
            pv == strings_of(patterns@),
            strings_of(out@) == extensions_of(pv.take(i as int)),
    {
        let p = patterns[i].as_str();
        let n = p.unicode_len();
        proof {
            assert(pv.take(i + 1).drop_last() =~= pv.take(i as int));
            assert(pv.take(i + 1).last() == p@);
        }
        if n >= 2 && p.get_char(0) == '*' && p.get_char(1) == '.' {
            let ext = p.substring_char(2, n);
            assert(ext@ =~= p@.skip(2));
            if n > 2 && !(has_char(ext, '*') || has_char(ext, '?') || has_char(ext, '.')) {
                let e = String::from_str(ext);
                if !contains_string(&out, &e) {
                    proof {
                        lemma_strings_push(out@, e);
                    }
                    out.push(e);
                }
            }
        }
    }
    proof {
        assert(pv.take(patterns@.len() as int) =~= pv);
    }
    out
}

/// Glob matching over a whole name: `*` matches any run of characters
/// (none included), `?` any one character, and every other character itself.
pub open spec fn glob(pattern: Seq<char>, name: Seq<char>) -> bool
    decreases pattern.len(),
{
    if pattern.len() == 0 {
        name.len() == 0
    } else if pattern[0] == '*' {
        exists|i: int| 0 <= i <= name.len() && glob(pattern.drop_first(), #[trigger] name.skip(i))
    } else if pattern[0] == '?' {
        name.len() > 0 && glob(pattern.drop_first(), name.drop_first())
    } else {
        name.len() > 0 && name[0] == pattern[0] && glob(pattern.drop_first(), name.drop_first())
    }
}

fn glob_match(pattern: &[char], name: &[char]) -> (r: bool)
    ensures
        r == glob(pattern@, name@),
    decreases pattern@.len(),
{
    if pattern.len() == 0 {
        return name.len() == 0;
    }
    let rest = vstd::slice::slice_subrange(pattern, 1, pattern.len());
    assert(rest@ =~= pattern@.drop_first());
    if pattern[0] == '*' {
        let mut i: usize = 0;
        loop
            invariant
                i <= name@.len(),
                rest@ == pattern@.drop_first(),
                pattern@.len() > 0,
                pattern@[0] == '*',
                forall|j: int| 0 <= j < i ==> !glob(pattern@.drop_first(), #[trigger] name@.skip(j)),
            decreases name@.len() - i,
        {
            let tail = vstd::slice::slice_subrange(name, i, name.len());
            assert(tail@ =~= name@.skip(i as int));
            if glob_match(rest, tail) {
                return true;
            }
            if i == name.len() {
                return false;
            }
            i = i + 1;
        }
    } else if pattern[0] == '?' {
        if name.len() == 0 {
            return false;
        }
        let tail = vstd::slice::slice_subrange(name, 1, name.len());
        assert(tail@ =~= name@.drop_first());
        glob_match(rest, tail)
    } else {
        if name.len() == 0 || name[0] != pattern[0] {
            return false;
        }
        let tail = vstd::slice::slice_subrange(name, 1, name.len());
        assert(tail@ =~= name@.drop_first());
        glob_match(rest, tail)
    }
}

/// Whether a file name passes the mask's patterns (case-insensitive, as on
/// Windows). No patterns: everything passes.
pub fn name_matches(name: &str, patterns: &[String]) -> (r: bool)
    ensures
        r == name_passes(strings_of(patterns@), name@),
{
    if patterns.len() == 0 {
        return true;
    }
    let lower = to_lowercase(name);
    let name_chars = chars_of(lower.as_str());
    for i in 0..patterns.len()
        invariant
            name_chars@ == lowercase(name@),
            forall|j: int| 0 <= j < i ==> !glob(#[trigger] strings_of(patterns@)[j], lowercase(name@)),
    {
        let p = chars_of(patterns[i].as_str());
        if glob_match(p.as_slice(), name_chars.as_slice()) {
            assert(strings_of(patterns@)[i as int] == p@);
            return true;
        }
        assert(strings_of(patterns@)[i as int] == patterns@[i as int]@);
    }
    false
}

/// A name passes the patterns: there are none, or one of them matches the
/// lower-cased name.
pub open spec fn name_passes(patterns: Seq<Seq<char>>, name: Seq<char>) -> bool {
    patterns.len() == 0 || exists|i: int| 0 <= i < patterns.len() && glob(#[trigger] patterns[i], lowercase(name))
}

/// Matching ignores case: names with the same lower-case form pass or fail together.
pub proof fn law_name_match_ignores_case(patterns: Seq<Seq<char>>, a: Seq<char>, b: Seq<char>)
    requires
        lowercase(a) == lowercase(b),
    ensures
        name_passes(patterns, a) == name_passes(patterns, b),
{
}

/// `*` matches every name.
pub proof fn law_star_matches_everything(name: Seq<char>)
    ensures
        glob(seq!['*'], name),
{
    let p = seq!['*'];
    assert(p.drop_first() =~= Seq::<char>::empty());
    assert(name.skip(name.len() as int) =~= Seq::<char>::empty());
    assert(glob(p.drop_first(), name.skip(name.len() as int)));
}

/// A mask with an all-matching pattern (`*.*` or `*`) filters nothing:
/// it has no patterns, and every name passes.
pub proof fn law_match_all_mask_filters_nothing(mask: Seq<char>, name: Seq<char>)
    requires
        exists|i: int|
            0 <= i < gather(pieces_of(mask_entries(mask))).len() && matches_everything(
                #[trigger] gather(pieces_of(mask_entries(mask)))[i],
            ),
    ensures
        mask_patterns_of(mask).len() == 0,
        name_passes(mask_patterns_of(mask), name),
{
}

/// The extensions offered to the browser's picker are plain: not empty,
/// without `*`, `?` or `.`, and each offered once.
pub proof fn law_extensions_are_plain(patterns: Seq<Seq<char>>)
    ensures
        extensions_of(patterns).no_duplicates(),
        forall|i: int|
            0 <= i < extensions_of(patterns).len() ==> #[trigger] extensions_of(patterns)[i].len() > 0
                && !is_glob_like(extensions_of(patterns)[i]),
    decreases patterns.len(),
{
    if patterns.len() > 0 {
        let g = extensions_of(patterns.drop_last());
        law_extensions_are_plain(patterns.drop_last());
        match extension_of(patterns.last()) {
            Some(e) => {
                if !g.contains(e) {
                    assert forall|i: int, j: int| 0 <= i < j < g.push(e).len() implies g.push(e)[i] != g.push(e)[j] by {
                        if j == g.len() {
                            assert(g.contains(g[i]));
                        }
                    }
                    assert forall|i: int| 0 <= i < g.push(e).len() implies #[trigger] g.push(e)[i].len() > 0
                        && !is_glob_like(g.push(e)[i]) by {
                        if i < g.len() {
                            assert(g.push(e)[i] == g[i]);
                        }
                    }
                }
            },
            None => {},
        }
    }
}

/// A `*` absorbs any prefix, whatever characters it holds (dots
/// included): when `p` matches `b`, `*` followed by `p` matches `a + b`.
pub proof fn law_star_absorbs_prefix(p: Seq<char>, a: Seq<char>, b: Seq<char>)
    requires
        glob(p, b),
    ensures
        glob(seq!['*'] + p, a + b),
{
    let pat = seq!['*'] + p;
    let n = a + b;
    assert(pat.drop_first() =~= p);
    assert(n.skip(a.len() as int) =~= b);
    assert(pat[0] == '*');
    assert(glob(pat.drop_first(), n.skip(a.len() as int)));
}

/// The empty pattern matches only the empty name.
pub proof fn law_empty_pattern(name: Seq<char>)
    ensures
        glob(Seq::empty(), name) <==> name.len() == 0,
{
}

/// A `?` matches exactly one character, whichever it is.
pub proof fn law_question_mark(p: Seq<char>, c: char, rest: Seq<char>)
    ensures
        glob(seq!['?'] + p, seq![c] + rest) <==> glob(p, rest),
        !glob(seq!['?'] + p, Seq::<char>::empty()),
{
    assert((seq!['?'] + p).drop_first() =~= p);
    assert((seq![c] + rest).drop_first() =~= rest);
    assert((seq!['?'] + p)[0] == '?');
}

/// Any other character matches only itself.
pub proof fn law_literal_char(p: Seq<char>, c: char, d: char, rest: Seq<char>)
    requires
        c != '*',
        c != '?',
    ensures
        glob(seq![c] + p, seq![d] + rest) <==> (c == d && glob(p, rest)),
        !glob(seq![c] + p, Seq::<char>::empty()),
{
    assert((seq![c] + p).drop_first() =~= p);
    assert((seq![d] + rest).drop_first() =~= rest);
    assert((seq![c] + p)[0] == c);
    assert((seq![d] + rest)[0] == d);
}

/// A `*` matches a name exactly when the rest of the pattern matches some
/// suffix of it: the star takes the characters before that suffix.
pub proof fn law_star_takes_a_prefix(p: Seq<char>, name: Seq<char>)
    ensures
        glob(seq!['*'] + p, name) <==> exists|a: Seq<char>, b: Seq<char>| #![trigger a.add(b), glob(p, b)] a + b == name && glob(p, b),
{
    let pat = seq!['*'] + p;
    assert(pat.drop_first() =~= p);
    assert(pat[0] == '*');
    if glob(pat, name) {
        let i = choose|i: int| 0 <= i <= name.len() && glob(pat.drop_first(), #[trigger] name.skip(i));
        assert(name.take(i) + name.skip(i) =~= name);
        assert(glob(p, name.skip(i)));
        assert(name.take(i).add(name.skip(i)) == name);
    }
    if exists|a: Seq<char>, b: Seq<char>| #![trigger a.add(b), glob(p, b)] a + b == name && glob(p, b) {
        let (a, b) = choose|a: Seq<char>, b: Seq<char>| #![trigger a.add(b), glob(p, b)] a + b == name && glob(p, b);
        law_star_absorbs_prefix(p, a, b);
    }
}

/// A name passes when some pattern matches its lower-case form, and fails
/// when there are patterns and none does; with no patterns every name passes.
pub proof fn law_name_passes(patterns: Seq<Seq<char>>, name: Seq<char>, i: int)
    ensures
        patterns.len() == 0 ==> name_passes(patterns, name),
        0 <= i < patterns.len() && glob(patterns[i], lowercase(name)) ==> name_passes(patterns, name),
        patterns.len() > 0 && (forall|j: int| 0 <= j < patterns.len() ==> !glob(#[trigger] patterns[j], lowercase(name)))
            ==> !name_passes(patterns, name),
{
}

/// `x` is a piece of some entry: one of its `;`-separated parts, trimmed and
/// lower-cased.
pub open spec fn is_piece_of(entries: Seq<Seq<char>>, x: Seq<char>) -> bool {
    exists|i: int, k: int|
        0 <= i < entries.len() && 0 <= k < split(entries[i], ';').len() && x == lowercase(
            trimmed(#[trigger] split(entries[i], ';')[k]),
        )
}

/// The pieces of the entries are exactly the trimmed, lower-cased
/// `;`-separated parts of each entry, every part of every entry included.
pub proof fn lemma_pieces_of_members(entries: Seq<Seq<char>>)
    ensures
        forall|x: Seq<char>| #[trigger] pieces_of(entries).contains(x) <==> is_piece_of(entries, x),
    decreases entries.len(),
{
    if entries.len() > 0 {
        let prev = entries.drop_last();
        lemma_pieces_of_members(prev);
        let e = entries.last();
        let ps = pieces_of(prev);
        let es = entry_pieces(e);
        assert(pieces_of(entries) == ps + es);
        assert forall|x: Seq<char>| #[trigger] pieces_of(entries).contains(x) <==> is_piece_of(entries, x) by {
            if pieces_of(entries).contains(x) {
                let j = choose|j: int| 0 <= j < (ps + es).len() && (ps + es)[j] == x;
                if j < ps.len() {
                    assert(ps.contains(x));
                    let (i, k) = choose|i: int, k: int|
                        0 <= i < prev.len() && 0 <= k < split(prev[i], ';').len() && x == lowercase(
                            trimmed(#[trigger] split(prev[i], ';')[k]),
                        );
                    assert(entries[i] == prev[i]);
                    assert(x == lowercase(trimmed(split(entries[i], ';')[k])));
                } else {
                    let k = j - ps.len();
                    assert(es[k] == x);
                    assert(entries[entries.len() - 1] == e);
                    assert(x == lowercase(trimmed(split(entries[entries.len() - 1], ';')[k])));
                }
            }
            if is_piece_of(entries, x) {
                let (i, k) = choose|i: int, k: int|
                    0 <= i < entries.len() && 0 <= k < split(entries[i], ';').len() && x == lowercase(
                        trimmed(#[trigger] split(entries[i], ';')[k]),
                    );
                if i < entries.len() - 1 {
                    assert(prev[i] == entries[i]);
                    assert(x == lowercase(trimmed(split(prev[i], ';')[k])));
                    assert(is_piece_of(prev, x));
                    assert(ps.contains(x));
                    let j = choose|j: int| 0 <= j < ps.len() && ps[j] == x;
                    assert((ps + es)[j] == x);
                } else {
                    assert(es[k] == x);
                    assert((ps + es)[ps.len() + k] == x);
                }
            }
        }
    }
}

/// Every glob-like piece of every pattern entry is one of the mask's
/// patterns, and every pattern is such a piece, when no piece is `*` or
/// `*.*` (which would lift the filter).
pub proof fn law_every_piece_is_a_pattern(mask: Seq<char>, x: Seq<char>)
    requires
        forall|y: Seq<char>| #[trigger] is_piece_of(mask_entries(mask), y) ==> y != seq!['*'] && y != seq!['*', '.', '*'],
    ensures
        mask_patterns_of(mask).contains(x) <==> is_piece_of(mask_entries(mask), x) && (x.contains('*') || x.contains('?')
            || x.contains('.')),
{
    let entries = mask_entries(mask);
    let pats = gather(pieces_of(entries));
    lemma_pieces_of_members(entries);
    lemma_gather(pieces_of(entries));
    assert forall|i: int| 0 <= i < pats.len() implies !matches_everything(#[trigger] pats[i]) by {
        assert(pats.contains(pats[i]));
        assert(pieces_of(entries).contains(pats[i]));
    }
    assert(mask_patterns_of(mask) == pats);
}

/// A `*` or `*.*` piece anywhere in the mask lifts the filter: the mask has
/// no patterns, so every name passes.
pub proof fn law_star_piece_lifts_the_filter(mask: Seq<char>, x: Seq<char>, name: Seq<char>)
    requires
        is_piece_of(mask_entries(mask), x),
        x == seq!['*'] || x == seq!['*', '.', '*'],
    ensures
        mask_patterns_of(mask).len() == 0,
        name_passes(mask_patterns_of(mask), name),
{
    let entries = mask_entries(mask);
    let pats = gather(pieces_of(entries));
    lemma_pieces_of_members(entries);
    lemma_gather(pieces_of(entries));
    assert(x[0] == '*');
    assert(x.contains('*'));
    assert(pieces_of(entries).contains(x));
    assert(pats.contains(x));
    let i = choose|i: int| 0 <= i < pats.len() && pats[i] == x;
    assert(matches_everything(pats[i]));
}

/// The pattern entries of a mask: of two or more comma-separated parts the
/// trimmed ones at odd positions (1, 3, ...), in order; a lone part, trimmed.
pub proof fn law_mask_entries(mask: Seq<char>)
    ensures
        split(mask, ',').len() >= 2 ==> mask_entries(mask).len() == split(mask, ',').len() / 2 && forall|k: int|
            0 <= k < split(mask, ',').len() / 2 ==> #[trigger] mask_entries(mask)[k] == trimmed(
                split(mask, ',')[2 * k + 1],
            ),
        split(mask, ',').len() == 1 ==> mask_entries(mask) == seq![trimmed(split(mask, ',')[0])],
{
    crate::text::lemma_split_nonempty(mask, ',');
    if split(mask, ',').len() == 1 {
        assert(mask_entries(mask) =~= seq![trimmed(split(mask, ',')[0])]);
    }
}

/// The extensions offered are exactly the plain `e` of the patterns that
/// read `*.e`: not empty and without `*`, `?` or `.`.
pub proof fn law_extensions_named(patterns: Seq<Seq<char>>, e: Seq<char>)
    ensures
        extensions_of(patterns).contains(e) <==> e.len() > 0 && !e.contains('*') && !e.contains('?') && !e.contains('.')
            && exists|i: int|
            0 <= i < patterns.len() && #[trigger] patterns[i] == seq!['*', '.'] + e,
    decreases patterns.len(),
{
    if patterns.len() > 0 {
        let prev = patterns.drop_last();
        law_extensions_named(prev, e);
        let g = extensions_of(prev);
        let p = patterns.last();
        let named = e.len() > 0 && !is_glob_like(e) && p == seq!['*', '.'] + e;
        assert(extension_of(p) == Some(e) <==> named) by {
            if named {
                assert(p.skip(2) =~= e);
            }
            if extension_of(p) == Some(e) {
                assert(p =~= seq!['*', '.'] + p.skip(2));
            }
        }
        let r = extensions_of(patterns);
        assert(r.contains(e) <==> g.contains(e) || extension_of(p) == Some(e)) by {
            match extension_of(p) {
                Some(x) => {
                    if !g.contains(x) {
                        assert(g.push(x)[g.len() as int] == x);
                        if g.push(x).contains(e) {
                            let k = choose|k: int| 0 <= k < g.push(x).len() && g.push(x)[k] == e;
                            if k < g.len() {
                                assert(g[k] == e);
                            }
                        }
                        if g.contains(e) {
                            let k = choose|k: int| 0 <= k < g.len() && g[k] == e;
                            assert(g.push(x)[k] == e);
                        }
                    }
                },
                None => {},
            }
        }
        if exists|i: int| 0 <= i < patterns.len() && #[trigger] patterns[i] == seq!['*', '.'] + e {
            let i = choose|i: int| 0 <= i < patterns.len() && #[trigger] patterns[i] == seq!['*', '.'] + e;
            if i < prev.len() {
                assert(prev[i] == patterns[i]);
            }
        }
        if exists|i: int| 0 <= i < prev.len() && #[trigger] prev[i] == seq!['*', '.'] + e {
            let i = choose|i: int| 0 <= i < prev.len() && #[trigger] prev[i] == seq!['*', '.'] + e;
            assert(patterns[i] == prev[i]);
        }
        if named {
            assert(patterns[patterns.len() - 1] == seq!['*', '.'] + e);
        }
    }
}

/// What the player chose in a file dialog.
pub enum DialogAnswer {
    Cancel,
    /// A file name, and its bytes when it came from the player's computer.
    File { name: String, bytes: Option<Vec<u8>> },
}

/// The answer the page's reply amounts to: the file it names, with the
/// bytes it brought; a cancel when it names no file or an empty name.
pub fn dialog_answer(name: Option<String>, bytes: Option<Vec<u8>>) -> (r: DialogAnswer)
    ensures
        name is Some && name.unwrap()@.len() > 0 ==> r == (DialogAnswer::File { name: name.unwrap(), bytes }),
        !(name is Some && name.unwrap()@.len() > 0) ==> r is Cancel,
{
    match name {
        Some(name) => {
            if name.as_str().unicode_len() == 0 {
                DialogAnswer::Cancel
            } else {
                DialogAnswer::File { name, bytes }
            }
        },
        None => DialogAnswer::Cancel,
    }
}

} // verus!
