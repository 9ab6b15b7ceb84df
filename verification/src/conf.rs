//! The settings file next to the executable: one `key=value` per line.
//!
//! Reading is lenient: blank lines and lines starting with `#` are skipped,
//! unknown keys are ignored, and a key given twice keeps its last value. Keys
//! and values are trimmed; a value may itself hold `=`. Numbers stay text here
//! (the opacities and crop corners are floating point, parsed by the caller).
use vstd::prelude::*;
use crate::text::{
    chars_of, is_white_space, is_white_space_exec, lacks_char, lemma_trim_end_fixed, push_all,
    slice_chars, string_of, trim, trim_end, trim_start, trim_start_len,
};

verus! {

// ---------------------------------------------------------------------------
// Splitting
// ---------------------------------------------------------------------------

/// `str::split` on one character: the pieces between the occurrences of `c`
/// (an empty text is one empty piece).
pub open spec fn split_char(s: Seq<char>, c: char) -> Seq<Seq<char>>
    decreases s.len(),
{
    if s.len() == 0 {
        seq![Seq::<char>::empty()]
    } else {
        let rest = split_char(s.drop_last(), c);
        if s.last() == c {
            rest.push(Seq::<char>::empty())
        } else {
            rest.update(rest.len() - 1, rest.last().push(s.last()))
        }
    }
}

/// A text without `c` is one piece.
pub proof fn lemma_split_single(b: Seq<char>, c: char)
    requires
        lacks_char(b, c),
    ensures
        split_char(b, c) == seq![b],
    decreases b.len(),
{
    if b.len() > 0 {
        lemma_split_single(b.drop_last(), c);
        assert(b[b.len() - 1] != c);
        assert(b.drop_last().push(b.last()) =~= b);
        let rest = split_char(b.drop_last(), c);
        assert(rest == seq![b.drop_last()]);
        assert(split_char(b, c) == rest.update(rest.len() - 1, rest.last().push(b.last())));
        assert(seq![b.drop_last()].update(0, b.drop_last().push(b.last())) =~= seq![b]);
    } else {
        assert(b =~= Seq::<char>::empty());
    }
}

/// Text after the last `c` becomes the last piece.
pub proof fn lemma_split_after(a: Seq<char>, c: char, b: Seq<char>)
    requires
        lacks_char(b, c),
    ensures
        split_char(a + seq![c] + b, c) == split_char(a, c).push(b),
    decreases b.len(),
{
    if b.len() == 0 {
        assert(a + seq![c] + b =~= a + seq![c]);
        assert((a + seq![c]).drop_last() =~= a);
        assert(b =~= Seq::<char>::empty());
    } else {
        let b0 = b.drop_last();
        lemma_split_after(a, c, b0);
        assert((a + seq![c] + b).drop_last() =~= a + seq![c] + b0);
        assert((a + seq![c] + b).last() == b.last());
        assert(b[b.len() - 1] != c);
        assert(b0.push(b.last()) =~= b);
        let rest = split_char(a, c).push(b0);
        assert(split_char(a + seq![c] + b, c) == rest.update(rest.len() - 1, rest.last().push(b.last())));
        assert(rest.update(rest.len() - 1, rest.last().push(b.last())) =~= split_char(a, c).push(b));
    }
}

// ---------------------------------------------------------------------------
// Trimming
// ---------------------------------------------------------------------------

/// A text that neither starts nor ends with white space is its own `trim`.
pub proof fn lemma_trim_fixed(s: Seq<char>)
    requires
        s.len() > 0 ==> !is_white_space(s[0]) && !is_white_space(s.last()),
    ensures
        trim(s) == s,
{
    lemma_trim_end_fixed(s);
}

/// A trimmed text neither starts nor ends with white space.
pub proof fn lemma_trimmed_ends(s: Seq<char>)
    requires
        trim(s) == s,
        s.len() > 0,
    ensures
        !is_white_space(s[0]),
        !is_white_space(s.last()),
{
    lemma_trim_facts(s);
}

/// `trim` keeps a middle part of its argument and drops only white space.
pub proof fn lemma_trim_facts(s: Seq<char>)
    ensures
        trim(s).len() > 0 ==> !is_white_space(trim(s)[0]) && !is_white_space(trim(s).last()),
{
    crate::text::lemma_trim_end(s);
    lemma_trim_start(trim_end(s));
    let e = trim_end(s);
    let t = trim(s);
    if t.len() > 0 {
        assert(t == e.subrange(e.len() - t.len(), e.len() as int));
        assert(t.last() == e.last());
    }
}

/// `trim_start` keeps a suffix of its argument and drops only white space.
pub proof fn lemma_trim_start(s: Seq<char>)
    ensures
        trim_start(s).len() <= s.len(),
        trim_start(s) == s.subrange(s.len() - trim_start(s).len(), s.len() as int),
        trim_start(s).len() > 0 ==> !is_white_space(trim_start(s)[0]),
    decreases s.len(),
{
    if s.len() > 0 && is_white_space(s[0]) {
        lemma_trim_start(s.drop_first());
        assert(s.drop_first().subrange(
            s.drop_first().len() - trim_start(s).len(),
            s.drop_first().len() as int,
        ) =~= s.subrange(s.len() - trim_start(s).len(), s.len() as int));
    } else {
        assert(s.subrange(0, s.len() as int) =~= s);
    }
}

/// The bounds of `s[lo..hi]` with white space trimmed from both ends.
pub fn trim_range(s: &Vec<char>, lo: usize, hi: usize) -> (r: (usize, usize))
    requires
        lo <= hi <= s@.len(),
    ensures
        lo <= r.0 <= r.1 <= hi,
        s@.subrange(r.0 as int, r.1 as int) == trim(s@.subrange(lo as int, hi as int)),
{
    let mut b = hi;
    while b > lo && is_white_space_exec(s[b - 1])
        invariant
            lo <= b <= hi <= s@.len(),
            trim_end(s@.subrange(lo as int, hi as int)) == trim_end(s@.subrange(lo as int, b as int)),
        decreases b,
    {
        assert(s@.subrange(lo as int, b as int).drop_last() =~= s@.subrange(lo as int, b - 1));
        b = b - 1;
    }
    proof {
        lemma_trim_end_fixed(s@.subrange(lo as int, b as int));
    }
    let a = trim_start_len(s, lo, b);
    (a, b)
}

/// `str::split` on one character, on characters.
pub fn split_chars(s: &Vec<char>, c: char) -> (r: Vec<Vec<char>>)
    ensures
        r@.len() == split_char(s@, c).len(),
        forall|j: int| 0 <= j < r@.len() ==> #[trigger] r@[j]@ == split_char(s@, c)[j],
{
    let mut out: Vec<Vec<char>> = Vec::new();
    let mut cur: Vec<char> = Vec::new();
    let mut i: usize = 0;
    while i < s.len()
        invariant
            i <= s@.len(),
            out@.len() + 1 == split_char(s@.take(i as int), c).len(),
            forall|j: int| 0 <= j < out@.len() ==> #[trigger] out@[j]@ == split_char(s@.take(i as int), c)[j],
            cur@ == split_char(s@.take(i as int), c).last(),
        decreases s@.len() - i,
    {
        let ghost before = split_char(s@.take(i as int), c);
        assert(s@.take(i + 1).drop_last() =~= s@.take(i as int));
        assert(s@.take(i + 1).last() == s@[i as int]);
        if s[i] == c {
            out.push(cur);
            cur = Vec::new();
        } else {
            cur.push(s[i]);
        }
        i = i + 1;
        proof {
            let after = split_char(s@.take(i as int), c);
            assert forall|j: int| 0 <= j < out@.len() implies #[trigger] out@[j]@ == after[j] by {
                if j < before.len() - 1 {
                    assert(out@[j]@ == before[j]);
                }
            }
        }
    }
    proof {
        assert(s@.take(i as int) =~= s@);
    }
    out.push(cur);
    out
}

// ---------------------------------------------------------------------------
// Entries
// ---------------------------------------------------------------------------

/// The characters of each vector.
pub open spec fn seqs_view(v: Seq<Vec<char>>) -> Seq<Seq<char>> {
    v.map_values(|x: Vec<char>| x@)
}

/// The characters of each pair of vectors.
pub open spec fn pairs_view(v: Seq<(Vec<char>, Vec<char>)>) -> Seq<(Seq<char>, Seq<char>)> {
    v.map_values(|p: (Vec<char>, Vec<char>)| (p.0@, p.1@))
}

/// The first index at or after `i` where `s` holds `c`.
pub open spec fn char_index(s: Seq<char>, c: char, i: int) -> Option<int>
    decreases s.len() - i,
{
    if i < 0 || i >= s.len() {
        None
    } else if s[i] == c {
        Some(i)
    } else {
        char_index(s, c, i + 1)
    }
}

/// The key and value of a trimmed line: split at the first `=` and both
/// trimmed; without `=`, the whole line is the key and the value is empty.
pub open spec fn line_entry(t: Seq<char>) -> (Seq<char>, Seq<char>) {
    match char_index(t, '=', 0) {
        Some(k) => (trim(t.subrange(0, k)), trim(t.subrange(k + 1, t.len() as int))),
        None => (trim(t), Seq::<char>::empty()),
    }
}

/// A trimmed line that carries an entry: not blank and not a `#` comment.
pub open spec fn is_entry_line(t: Seq<char>) -> bool {
    t.len() > 0 && t[0] != '#'
}

/// The entries of the lines, in order.
pub open spec fn line_entries(lines: Seq<Seq<char>>) -> Seq<(Seq<char>, Seq<char>)>
    decreases lines.len(),
{
    if lines.len() == 0 {
        Seq::empty()
    } else {
        let prev = line_entries(lines.drop_last());
        let t = trim(lines.last());
        if is_entry_line(t) {
            prev.push(line_entry(t))
        } else {
            prev
        }
    }
}

/// The entries of a settings text, in order.
pub open spec fn conf_entries(text: Seq<char>) -> Seq<(Seq<char>, Seq<char>)> {
    line_entries(split_char(text, '\n'))
}

/// The values given to `key`, in order.
pub open spec fn values_for(entries: Seq<(Seq<char>, Seq<char>)>, key: Seq<char>) -> Seq<Seq<char>>
    decreases entries.len(),
{
    if entries.len() == 0 {
        Seq::empty()
    } else {
        let prev = values_for(entries.drop_last(), key);
        if entries.last().0 == key {
            prev.push(entries.last().1)
        } else {
            prev
        }
    }
}

/// The values that a settings text gives to `key`, in order.
pub open spec fn conf_values(text: Seq<char>, key: Seq<char>) -> Seq<Seq<char>> {
    values_for(conf_entries(text), key)
}

/// The first index of `c` in `t`.
fn find_char(t: &Vec<char>, c: char) -> (r: Option<usize>)
    ensures
        match r {
            Some(k) => char_index(t@, c, 0) == Some(k as int),
            None => char_index(t@, c, 0) is None,
        },
{
    let mut i: usize = 0;
    while i < t.len()
        invariant
            i <= t@.len(),
            char_index(t@, c, 0) == char_index(t@, c, i as int),
        decreases t@.len() - i,
    {
        if t[i] == c {
            return Some(i);
        }
        i = i + 1;
    }
    None
}

/// The trimmed characters `s[lo..hi]`.
fn trimmed(s: &Vec<char>, lo: usize, hi: usize) -> (r: Vec<char>)
    requires
        lo <= hi <= s@.len(),
    ensures
        r@ == trim(s@.subrange(lo as int, hi as int)),
{
    let (a, b) = trim_range(s, lo, hi);
    slice_chars(s, a, b)
}

/// The key and value of a trimmed line.
fn entry_of(t: &Vec<char>) -> (r: (Vec<char>, Vec<char>))
    ensures
        (r.0@, r.1@) == line_entry(t@),
{
    match find_char(t, '=') {
        Some(k) => {
            proof {
                lemma_char_index_bounds(t@, '=', 0);
                assert(char_index(t@, '=', 0) == Some(k as int));
                assert(k < t@.len());
            }
            let n = t.len();
            (trimmed(t, 0, k), trimmed(t, k + 1, n))
        },
        None => {
            proof {
                assert(t@.subrange(0, t@.len() as int) =~= t@);
            }
            (trimmed(t, 0, t.len()), Vec::new())
        },
    }
}

/// Where `char_index` finds `c`, it is there, at or after where the search began.
proof fn lemma_char_index_bounds(s: Seq<char>, c: char, i: int)
    ensures
        char_index(s, c, i) matches Some(k) ==> i <= k < s.len() && s[k] == c,
    decreases s.len() - i,
{
    if 0 <= i < s.len() && s[i] != c {
        lemma_char_index_bounds(s, c, i + 1);
    }
}

/// The entries of the lines.
fn entries_of(lines: &Vec<Vec<char>>) -> (r: Vec<(Vec<char>, Vec<char>)>)
    ensures
        pairs_view(r@) == line_entries(seqs_view(lines@)),
{
    let mut out: Vec<(Vec<char>, Vec<char>)> = Vec::new();
    let mut i: usize = 0;
    while i < lines.len()
        invariant
            i <= lines@.len(),
            pairs_view(out@) == line_entries(seqs_view(lines@).take(i as int)),
        decreases lines@.len() - i,
    {
        let ghost prefix = seqs_view(lines@).take(i + 1);
        assert(prefix.drop_last() =~= seqs_view(lines@).take(i as int));
        assert(prefix.last() == lines@[i as int]@);
        let line = &lines[i];
        let t = trimmed(line, 0, line.len());
        proof {
            assert(line@.subrange(0, line@.len() as int) =~= line@);
        }
        if t.len() > 0 && t[0] != '#' {
            let e = entry_of(&t);
            out.push(e);
            assert(pairs_view(out@) =~= line_entries(seqs_view(lines@).take(i as int)).push(line_entry(t@)));
        }
        i = i + 1;
    }
    assert(seqs_view(lines@).take(i as int) =~= seqs_view(lines@));
    out
}

/// Whether two character vectors are equal.
fn same_chars(a: &Vec<char>, b: &Vec<char>) -> (r: bool)
    ensures
        r == (a@ == b@),
{
    if a.len() != b.len() {
        return false;
    }
    let mut i: usize = 0;
    while i < a.len()
        invariant
            i <= a@.len() == b@.len(),
            a@.take(i as int) == b@.take(i as int),
        decreases a@.len() - i,
    {
        if a[i] != b[i] {
            assert(a@.take(i + 1)[i as int] != b@.take(i + 1)[i as int]);
            return false;
        }
        assert(a@.take(i + 1) =~= a@.take(i as int).push(a@[i as int]));
        assert(b@.take(i + 1) =~= b@.take(i as int).push(b@[i as int]));
        i = i + 1;
    }
    assert(a@.take(i as int) =~= a@);
    assert(b@.take(i as int) =~= b@);
    true
}

/// The values given to `key`, in order.
fn values_of(entries: &Vec<(Vec<char>, Vec<char>)>, key: &Vec<char>) -> (r: Vec<Vec<char>>)
    ensures
        seqs_view(r@) == values_for(pairs_view(entries@), key@),
{
    let mut out: Vec<Vec<char>> = Vec::new();
    let mut i: usize = 0;
    while i < entries.len()
        invariant
            i <= entries@.len(),
            seqs_view(out@) == values_for(pairs_view(entries@).take(i as int), key@),
        decreases entries@.len() - i,
    {
        let ghost prefix = pairs_view(entries@).take(i + 1);
        assert(prefix.drop_last() =~= pairs_view(entries@).take(i as int));
        assert(prefix.last() == (entries@[i as int].0@, entries@[i as int].1@));
        if same_chars(&entries[i].0, key) {
            let v = entries[i].1.clone();
            out.push(v);
            assert(seqs_view(out@) =~= values_for(pairs_view(entries@).take(i as int), key@).push(
                entries@[i as int].1@,
            ));
        }
        i = i + 1;
    }
    assert(pairs_view(entries@).take(i as int) =~= pairs_view(entries@));
    out
}

/// The values that `text` gives to each key, found once.
fn text_entries(text: &str) -> (r: Vec<(Vec<char>, Vec<char>)>)
    ensures
        pairs_view(r@) == conf_entries(text@),
{
    let chars = chars_of(text);
    let lines = split_chars(&chars, '\n');
    assert(seqs_view(lines@) =~= split_char(text@, '\n'));
    entries_of(&lines)
}

// ---------------------------------------------------------------------------
// Reading the settings
// ---------------------------------------------------------------------------

/// Key of the install path.
pub const KEY_INSTALL_PATH: &'static str = "install_path";
/// Key of the side bar opacity.
pub const KEY_SIDE_ALPHA: &'static str = "side_alpha";
/// Key of the panel opacity.
pub const KEY_PANEL_ALPHA: &'static str = "panel_alpha";
/// Key of the dark wallpaper's mask opacity.
pub const KEY_DARK_ALPHA: &'static str = "dark.alpha";
/// Key of the dark wallpaper's image path.
pub const KEY_DARK_PATH: &'static str = "dark.path";
/// Key of the dark wallpaper's crop selection.
pub const KEY_DARK_CROP: &'static str = "dark.crop";
/// Key of the light wallpaper's mask opacity.
pub const KEY_LIGHT_ALPHA: &'static str = "light.alpha";
/// Key of the light wallpaper's image path.
pub const KEY_LIGHT_PATH: &'static str = "light.path";
/// Key of the light wallpaper's crop selection.
pub const KEY_LIGHT_CROP: &'static str = "light.crop";
/// Key of the background video's path.
pub const KEY_VIDEO_PATH: &'static str = "video.path";

/// A crop selection as text: the corner `x,y` and the size `w,h`, each a
/// number as written in the settings file.
#[derive(Clone, Debug, PartialEq, Eq)]
pub struct CropText {
    pub x: String,
    pub y: String,
    pub w: String,
    pub h: String,
}

/// The four numbers of a crop selection, in order.
pub open spec fn crop_view(c: CropText) -> Seq<Seq<char>> {
    seq![c.x@, c.y@, c.w@, c.h@]
}

/// An optional crop selection, viewed.
pub open spec fn opt_crop(c: Option<CropText>) -> Option<Seq<Seq<char>>> {
    match c {
        Some(x) => Some(crop_view(x)),
        None => None,
    }
}

/// An optional text, viewed.
pub open spec fn opt_str(s: Option<String>) -> Option<Seq<char>> {
    match s {
        Some(x) => Some(x@),
        None => None,
    }
}

/// The characters of each string.
pub open spec fn strs_view(v: Seq<String>) -> Seq<Seq<char>> {
    v.map_values(|x: String| x@)
}

/// A crop value `x,y,w,h`: exactly four comma-separated parts, each trimmed.
pub open spec fn crop_parts(v: Seq<char>) -> Option<Seq<Seq<char>>> {
    let p = split_char(v, ',');
    if p.len() == 4 {
        Some(seq![trim(p[0]), trim(p[1]), trim(p[2]), trim(p[3])])
    } else {
        None
    }
}

/// The last value, or the empty text when there is none.
pub open spec fn last_or_empty(vs: Seq<Seq<char>>) -> Seq<char> {
    if vs.len() > 0 {
        vs.last()
    } else {
        Seq::empty()
    }
}

/// A path setting: the last value, unless there is none or it is empty.
pub open spec fn path_value(vs: Seq<Seq<char>>) -> Option<Seq<char>> {
    if vs.len() > 0 && vs.last().len() > 0 {
        Some(vs.last())
    } else {
        None
    }
}

/// A crop setting: the parts of the last value, if it has four.
pub open spec fn crop_value(vs: Seq<Seq<char>>) -> Option<Seq<Seq<char>>> {
    if vs.len() > 0 {
        crop_parts(vs.last())
    } else {
        None
    }
}

/// What a settings file holds, as text. An opacity lists every value given,
/// in order, for the caller to take the last one that parses as a number.
#[derive(Clone, Debug, PartialEq)]
pub struct ConfRead {
    pub install_path: String,
    pub side_alpha: Vec<String>,
    pub panel_alpha: Vec<String>,
    pub dark_alpha: Vec<String>,
    pub dark_path: Option<String>,
    pub dark_crop: Option<CropText>,
    pub light_alpha: Vec<String>,
    pub light_path: Option<String>,
    pub light_crop: Option<CropText>,
    pub video_path: Option<String>,
}

/// `r` is what `text` holds.
pub open spec fn conf_read_spec(r: ConfRead, text: Seq<char>) -> bool {
    &&& r.install_path@ == last_or_empty(conf_values(text, KEY_INSTALL_PATH@))
    &&& strs_view(r.side_alpha@) == conf_values(text, KEY_SIDE_ALPHA@)
    &&& strs_view(r.panel_alpha@) == conf_values(text, KEY_PANEL_ALPHA@)
    &&& strs_view(r.dark_alpha@) == conf_values(text, KEY_DARK_ALPHA@)
    &&& opt_str(r.dark_path) == path_value(conf_values(text, KEY_DARK_PATH@))
    &&& opt_crop(r.dark_crop) == crop_value(conf_values(text, KEY_DARK_CROP@))
    &&& strs_view(r.light_alpha@) == conf_values(text, KEY_LIGHT_ALPHA@)
    &&& opt_str(r.light_path) == path_value(conf_values(text, KEY_LIGHT_PATH@))
    &&& opt_crop(r.light_crop) == crop_value(conf_values(text, KEY_LIGHT_CROP@))
    &&& opt_str(r.video_path) == path_value(conf_values(text, KEY_VIDEO_PATH@))
}

/// The crop selection in a value `x,y,w,h`; `None` unless it has exactly
/// four comma-separated parts. The parts are trimmed, not checked as numbers.
pub fn crop_fields(val: &str) -> (r: Option<CropText>)
    ensures
        opt_crop(r) == crop_parts(val@),
{
    let v = chars_of(val);
    crop_of_chars(&v)
}

/// `crop_fields` on characters.
fn crop_of_chars(v: &Vec<char>) -> (r: Option<CropText>)
    ensures
        opt_crop(r) == crop_parts(v@),
{
    let parts = split_chars(v, ',');
    if parts.len() != 4 {
        return None;
    }
    let x = trimmed(&parts[0], 0, parts[0].len());
    let y = trimmed(&parts[1], 0, parts[1].len());
    let w = trimmed(&parts[2], 0, parts[2].len());
    let h = trimmed(&parts[3], 0, parts[3].len());
    proof {
        assert(parts@[0]@.subrange(0, parts@[0]@.len() as int) =~= parts@[0]@);
        assert(parts@[1]@.subrange(0, parts@[1]@.len() as int) =~= parts@[1]@);
        assert(parts@[2]@.subrange(0, parts@[2]@.len() as int) =~= parts@[2]@);
        assert(parts@[3]@.subrange(0, parts@[3]@.len() as int) =~= parts@[3]@);
    }
    let c = CropText { x: string_of(&x), y: string_of(&y), w: string_of(&w), h: string_of(&h) };
    proof {
        let p = split_char(v@, ',');
        assert(crop_view(c) =~= seq![trim(p[0]), trim(p[1]), trim(p[2]), trim(p[3])]);
    }
    Some(c)
}

/// The strings of the values.
fn strings_of(vs: &Vec<Vec<char>>) -> (r: Vec<String>)
    ensures
        strs_view(r@) == seqs_view(vs@),
{
    let mut out: Vec<String> = Vec::new();
    let mut i: usize = 0;
    while i < vs.len()
        invariant
            i <= vs@.len(),
            out@.len() == i,
            strs_view(out@) == seqs_view(vs@).take(i as int),
        decreases vs@.len() - i,
    {
        let st = string_of(&vs[i]);
        assert(st@ == seqs_view(vs@)[i as int]);
        let ghost before = out@;
        out.push(st);
        proof {
            assert forall|j: int| 0 <= j < out@.len() implies #[trigger] strs_view(out@)[j]
                == seqs_view(vs@).take(i + 1)[j] by {
                if j < i {
                    assert(out@[j] == before[j]);
                    assert(strs_view(before)[j] == seqs_view(vs@).take(i as int)[j]);
                }
            }
        }
        i = i + 1;
        assert(strs_view(out@) =~= seqs_view(vs@).take(i as int));
    }
    assert(seqs_view(vs@).take(i as int) =~= seqs_view(vs@));
    out
}

/// The last value, or the empty string.
fn last_string(vs: &Vec<Vec<char>>) -> (r: String)
    ensures
        r@ == last_or_empty(seqs_view(vs@)),
{
    if vs.len() > 0 {
        string_of(&vs[vs.len() - 1])
    } else {
        String::new()
    }
}

/// The last value, unless there is none or it is empty.
fn last_path(vs: &Vec<Vec<char>>) -> (r: Option<String>)
    ensures
        opt_str(r) == path_value(seqs_view(vs@)),
{
    if vs.len() > 0 && vs[vs.len() - 1].len() > 0 {
        Some(string_of(&vs[vs.len() - 1]))
    } else {
        None
    }
}

/// The crop selection of the last value.
fn last_crop(vs: &Vec<Vec<char>>) -> (r: Option<CropText>)
    ensures
        opt_crop(r) == crop_value(seqs_view(vs@)),
{
    if vs.len() > 0 {
        crop_of_chars(&vs[vs.len() - 1])
    } else {
        None
    }
}

/// The values that the entries give to `key`.
fn key_values(entries: &Vec<(Vec<char>, Vec<char>)>, key: &str) -> (r: Vec<Vec<char>>)
    ensures
        seqs_view(r@) == values_for(pairs_view(entries@), key@),
{
    let k = chars_of(key);
    values_of(entries, &k)
}

/// Reads a settings file. Lines are split at `\n` and trimmed; blank lines and
/// lines starting with `#` are skipped; a line is split at its first `=` into a
/// trimmed key and value (a line without `=` is a key with an empty value);
/// unknown keys are ignored. Each setting takes the last value given to it: an
/// empty path is no path, and a crop value without exactly four parts is no
/// crop. A missing install path is empty.
pub fn from_conf(text: &str) -> (r: ConfRead)
    ensures
        conf_read_spec(r, text@),
{
    let entries = text_entries(text);
    let ip = key_values(&entries, KEY_INSTALL_PATH);
    let sa = key_values(&entries, KEY_SIDE_ALPHA);
    let pa = key_values(&entries, KEY_PANEL_ALPHA);
    let da = key_values(&entries, KEY_DARK_ALPHA);
    let dp = key_values(&entries, KEY_DARK_PATH);
    let dc = key_values(&entries, KEY_DARK_CROP);
    let la = key_values(&entries, KEY_LIGHT_ALPHA);
    let lp = key_values(&entries, KEY_LIGHT_PATH);
    let lc = key_values(&entries, KEY_LIGHT_CROP);
    let vp = key_values(&entries, KEY_VIDEO_PATH);
    ConfRead {
        install_path: last_string(&ip),
        side_alpha: strings_of(&sa),
        panel_alpha: strings_of(&pa),
        dark_alpha: strings_of(&da),
        dark_path: last_path(&dp),
        dark_crop: last_crop(&dc),
        light_alpha: strings_of(&la),
        light_path: last_path(&lp),
        light_crop: last_crop(&lc),
        video_path: last_path(&vp),
    }
}

// ---------------------------------------------------------------------------
// Writing the settings
// ---------------------------------------------------------------------------

/// The settings to write, as text: numbers already formatted by the caller.
#[derive(Clone, Debug, PartialEq)]
pub struct SettingsText {
    pub install_path: String,
    pub side_alpha: String,
    pub panel_alpha: String,
    pub dark_alpha: String,
    pub dark_path: Option<String>,
    pub dark_crop: Option<CropText>,
    pub light_alpha: String,
    pub light_path: Option<String>,
    pub light_crop: Option<CropText>,
    pub video_path: Option<String>,
}

/// A crop selection as one value: `x,y,w,h`.
pub open spec fn crop_line(c: Seq<Seq<char>>) -> Seq<char> {
    c[0] + seq![','] + c[1] + seq![','] + c[2] + seq![','] + c[3]
}

/// One entry.
pub open spec fn one_entry(key: Seq<char>, v: Seq<char>) -> Seq<(Seq<char>, Seq<char>)> {
    seq![(key, v)]
}

/// An entry when there is a value, else none.
pub open spec fn opt_entry(key: Seq<char>, v: Option<Seq<char>>) -> Seq<(Seq<char>, Seq<char>)> {
    match v {
        Some(x) => one_entry(key, x),
        None => Seq::empty(),
    }
}

/// An entry for a crop selection when there is one, else none.
pub open spec fn crop_entry(key: Seq<char>, c: Option<Seq<Seq<char>>>) -> Seq<(Seq<char>, Seq<char>)> {
    match c {
        Some(x) => one_entry(key, crop_line(x)),
        None => Seq::empty(),
    }
}

/// The entries written for the settings, in the order they are written: a
/// path or crop selection only when there is one.
pub open spec fn conf_pairs(s: SettingsText) -> Seq<(Seq<char>, Seq<char>)> {
    one_entry(KEY_INSTALL_PATH@, s.install_path@) + one_entry(KEY_SIDE_ALPHA@, s.side_alpha@)
        + one_entry(KEY_PANEL_ALPHA@, s.panel_alpha@) + one_entry(KEY_DARK_ALPHA@, s.dark_alpha@)
        + opt_entry(KEY_DARK_PATH@, opt_str(s.dark_path)) + crop_entry(
        KEY_DARK_CROP@,
        opt_crop(s.dark_crop),
    ) + one_entry(KEY_LIGHT_ALPHA@, s.light_alpha@) + opt_entry(
        KEY_LIGHT_PATH@,
        opt_str(s.light_path),
    ) + crop_entry(KEY_LIGHT_CROP@, opt_crop(s.light_crop)) + opt_entry(
        KEY_VIDEO_PATH@,
        opt_str(s.video_path),
    )
}

/// The line of an entry, without its newline: `key=value`.
pub open spec fn entry_line(p: (Seq<char>, Seq<char>)) -> Seq<char> {
    p.0 + seq!['='] + p.1
}

/// The text of the entries: one line each, each ending in a newline.
pub open spec fn conf_text(pairs: Seq<(Seq<char>, Seq<char>)>) -> Seq<char>
    decreases pairs.len(),
{
    if pairs.len() == 0 {
        Seq::empty()
    } else {
        conf_text(pairs.drop_last()) + entry_line(pairs.last()) + seq!['\n']
    }
}

/// The text of two runs of entries is the text of the first, then the second.
pub proof fn lemma_conf_text_concat(a: Seq<(Seq<char>, Seq<char>)>, b: Seq<(Seq<char>, Seq<char>)>)
    ensures
        conf_text(a + b) == conf_text(a) + conf_text(b),
    decreases b.len(),
{
    if b.len() == 0 {
        assert(a + b =~= a);
        assert(conf_text(a) + conf_text(b) =~= conf_text(a));
    } else {
        lemma_conf_text_concat(a, b.drop_last());
        assert((a + b).drop_last() =~= a + b.drop_last());
        assert((a + b).last() == b.last());
        assert(conf_text(a + b) =~= conf_text(a) + conf_text(b));
    }
}

/// The text of one entry.
pub proof fn lemma_conf_text_one(key: Seq<char>, v: Seq<char>)
    ensures
        conf_text(one_entry(key, v)) == key + seq!['='] + v + seq!['\n'],
{
    let e = one_entry(key, v);
    assert(e.drop_last() =~= Seq::<(Seq<char>, Seq<char>)>::empty());
    assert(conf_text(e.drop_last()) == Seq::<char>::empty());
    assert(e.last() == (key, v));
    assert(conf_text(e) == conf_text(e.drop_last()) + entry_line(e.last()) + seq!['\n']);
    assert(conf_text(e) =~= key + seq!['='] + v + seq!['\n']);
}

/// Appends the line `key=value` and a newline.
fn push_entry(out: &mut Vec<char>, key: &str, val: &Vec<char>)
    ensures
        final(out)@ == old(out)@ + conf_text(one_entry(key@, val@)),
{
    proof {
        lemma_conf_text_one(key@, val@);
    }
    let k = chars_of(key);
    push_all(out, &k);
    out.push('=');
    push_all(out, val);
    out.push('\n');
    assert(out@ =~= old(out)@ + (key@ + seq!['='] + val@ + seq!['\n']));
}

/// Appends the line of an optional path.
fn push_path(out: &mut Vec<char>, key: &str, p: &Option<String>)
    ensures
        final(out)@ == old(out)@ + conf_text(opt_entry(key@, opt_str(*p))),
{
    match p {
        Some(x) => {
            let v = chars_of(x.as_str());
            push_entry(out, key, &v);
        },
        None => {
            assert(out@ =~= old(out)@ + conf_text(Seq::<(Seq<char>, Seq<char>)>::empty()));
        },
    }
}

/// Appends the line of an optional crop selection.
fn push_crop(out: &mut Vec<char>, key: &str, c: &Option<CropText>)
    ensures
        final(out)@ == old(out)@ + conf_text(crop_entry(key@, opt_crop(*c))),
{
    match c {
        Some(x) => {
            let mut v = chars_of(x.x.as_str());
            v.push(',');
            let y = chars_of(x.y.as_str());
            push_all(&mut v, &y);
            v.push(',');
            let w = chars_of(x.w.as_str());
            push_all(&mut v, &w);
            v.push(',');
            let h = chars_of(x.h.as_str());
            push_all(&mut v, &h);
            assert(v@ =~= crop_line(crop_view(*x)));
            push_entry(out, key, &v);
        },
        None => {
            assert(out@ =~= old(out)@ + conf_text(Seq::<(Seq<char>, Seq<char>)>::empty()));
        },
    }
}

/// Writes the settings file: `install_path`, `side_alpha`, `panel_alpha`,
/// `dark.alpha`, `dark.path`, `dark.crop`, `light.alpha`, `light.path`,
/// `light.crop`, `video.path`, one `key=value` line each, a path or crop line
/// only when there is one.
pub fn to_conf(s: &SettingsText) -> (r: String)
    ensures
        r@ == conf_text(conf_pairs(*s)),
{
    let mut out: Vec<char> = Vec::new();
    let ip = chars_of(s.install_path.as_str());
    push_entry(&mut out, KEY_INSTALL_PATH, &ip);
    let ghost p1 = one_entry(KEY_INSTALL_PATH@, s.install_path@);
    assert(out@ =~= conf_text(p1));
    let sa = chars_of(s.side_alpha.as_str());
    push_entry(&mut out, KEY_SIDE_ALPHA, &sa);
    let ghost p2 = p1 + one_entry(KEY_SIDE_ALPHA@, s.side_alpha@);
    proof {
        lemma_conf_text_concat(p1, one_entry(KEY_SIDE_ALPHA@, s.side_alpha@));
    }
    let pa = chars_of(s.panel_alpha.as_str());
    push_entry(&mut out, KEY_PANEL_ALPHA, &pa);
    let ghost p3 = p2 + one_entry(KEY_PANEL_ALPHA@, s.panel_alpha@);
    proof {
        lemma_conf_text_concat(p2, one_entry(KEY_PANEL_ALPHA@, s.panel_alpha@));
    }
    let da = chars_of(s.dark_alpha.as_str());
    push_entry(&mut out, KEY_DARK_ALPHA, &da);
    let ghost p4 = p3 + one_entry(KEY_DARK_ALPHA@, s.dark_alpha@);
    proof {
        lemma_conf_text_concat(p3, one_entry(KEY_DARK_ALPHA@, s.dark_alpha@));
    }
    push_path(&mut out, KEY_DARK_PATH, &s.dark_path);
    let ghost p5 = p4 + opt_entry(KEY_DARK_PATH@, opt_str(s.dark_path));
    proof {
        lemma_conf_text_concat(p4, opt_entry(KEY_DARK_PATH@, opt_str(s.dark_path)));
    }
    push_crop(&mut out, KEY_DARK_CROP, &s.dark_crop);
    let ghost p6 = p5 + crop_entry(KEY_DARK_CROP@, opt_crop(s.dark_crop));
    proof {
        lemma_conf_text_concat(p5, crop_entry(KEY_DARK_CROP@, opt_crop(s.dark_crop)));
    }
    let la = chars_of(s.light_alpha.as_str());
    push_entry(&mut out, KEY_LIGHT_ALPHA, &la);
    let ghost p7 = p6 + one_entry(KEY_LIGHT_ALPHA@, s.light_alpha@);
    proof {
        lemma_conf_text_concat(p6, one_entry(KEY_LIGHT_ALPHA@, s.light_alpha@));
    }
    push_path(&mut out, KEY_LIGHT_PATH, &s.light_path);
    let ghost p8 = p7 + opt_entry(KEY_LIGHT_PATH@, opt_str(s.light_path));
    proof {
        lemma_conf_text_concat(p7, opt_entry(KEY_LIGHT_PATH@, opt_str(s.light_path)));
    }
    push_crop(&mut out, KEY_LIGHT_CROP, &s.light_crop);
    let ghost p9 = p8 + crop_entry(KEY_LIGHT_CROP@, opt_crop(s.light_crop));
    proof {
        lemma_conf_text_concat(p8, crop_entry(KEY_LIGHT_CROP@, opt_crop(s.light_crop)));
    }
    push_path(&mut out, KEY_VIDEO_PATH, &s.video_path);
    proof {
        lemma_conf_text_concat(p9, opt_entry(KEY_VIDEO_PATH@, opt_str(s.video_path)));
        assert(p9 + opt_entry(KEY_VIDEO_PATH@, opt_str(s.video_path)) == conf_pairs(*s));
    }
    string_of(&out)
}

// ---------------------------------------------------------------------------
// Reading back what was written
// ---------------------------------------------------------------------------

/// A key that reads back as itself: not empty, without `=` or a newline, not
/// starting with `#`, and neither starting nor ending with white space.
pub open spec fn key_ok(k: Seq<char>) -> bool {
    &&& k.len() > 0
    &&& lacks_char(k, '=')
    &&& lacks_char(k, '\n')
    &&& !is_white_space(k[0])
    &&& !is_white_space(k.last())
    &&& k[0] != '#'
}

/// A value that reads back as itself: one line, already trimmed.
pub open spec fn value_ok(v: Seq<char>) -> bool {
    lacks_char(v, '\n') && trim(v) == v
}

/// Every entry has a key and a value that read back as themselves.
pub open spec fn pairs_ok(pairs: Seq<(Seq<char>, Seq<char>)>) -> bool {
    forall|i: int| 0 <= i < pairs.len() ==> key_ok(#[trigger] pairs[i].0) && value_ok(pairs[i].1)
}

/// Every number of a crop selection reads back as itself and holds no comma.
pub open spec fn crop_text_ok(c: CropText) -> bool {
    forall|i: int| 0 <= i < 4 ==> value_ok(#[trigger] crop_view(c)[i]) && lacks_char(crop_view(c)[i], ',')
}

/// Settings that the settings file holds without loss: every value is one
/// trimmed line, a path is not empty, and a crop number holds no comma.
pub open spec fn settings_ok(s: SettingsText) -> bool {
    &&& value_ok(s.install_path@)
    &&& value_ok(s.side_alpha@)
    &&& value_ok(s.panel_alpha@)
    &&& value_ok(s.dark_alpha@)
    &&& value_ok(s.light_alpha@)
    &&& (s.dark_path matches Some(p) ==> value_ok(p@) && p@.len() > 0)
    &&& (s.light_path matches Some(p) ==> value_ok(p@) && p@.len() > 0)
    &&& (s.video_path matches Some(p) ==> value_ok(p@) && p@.len() > 0)
    &&& (s.dark_crop matches Some(c) ==> crop_text_ok(c))
    &&& (s.light_crop matches Some(c) ==> crop_text_ok(c))
}

/// `char_index` finds the first `c` from where it starts.
proof fn lemma_char_index_first(s: Seq<char>, c: char, i: int, j: int)
    requires
        0 <= i <= j < s.len(),
        s[j] == c,
        forall|m: int| i <= m < j ==> s[m] != c,
    ensures
        char_index(s, c, i) == Some(j),
    decreases j - i,
{
    if i < j {
        lemma_char_index_first(s, c, i + 1, j);
    }
}

/// The line `key=value` is trimmed, carries an entry, and reads back as the pair.
proof fn lemma_line_parses(p: (Seq<char>, Seq<char>))
    requires
        key_ok(p.0),
        value_ok(p.1),
    ensures
        trim(entry_line(p)) == entry_line(p),
        is_entry_line(entry_line(p)),
        line_entry(entry_line(p)) == p,
        lacks_char(entry_line(p), '\n'),
{
    let (k, v) = p;
    let l = entry_line(p);
    assert(l[0] == k[0]);
    if v.len() > 0 {
        lemma_trimmed_ends(v);
        assert(l.last() == v.last());
    } else {
        assert(l.last() == '=');
    }
    lemma_trim_fixed(l);
    assert forall|m: int| 0 <= m < k.len() implies l[m] != '=' by {
        assert(l[m] == k[m]);
    }
    lemma_char_index_first(l, '=', 0, k.len() as int);
    assert(l.subrange(0, k.len() as int) =~= k);
    assert(l.subrange(k.len() + 1int, l.len() as int) =~= v);
    lemma_trim_fixed(k);
    assert forall|m: int| 0 <= m < l.len() implies l[m] != '\n' by {
        if m < k.len() {
            assert(l[m] == k[m]);
        } else if m > k.len() {
            assert(l[m] == v[m - k.len() - 1]);
        }
    }
}

/// The lines of the text of the entries: one per entry, then the empty piece
/// after the last newline.
proof fn lemma_split_text(pairs: Seq<(Seq<char>, Seq<char>)>)
    requires
        forall|i: int| 0 <= i < pairs.len() ==> lacks_char(#[trigger] entry_line(pairs[i]), '\n'),
    ensures
        split_char(conf_text(pairs), '\n') == pairs.map_values(|p: (Seq<char>, Seq<char>)| entry_line(p)).push(
            Seq::<char>::empty(),
        ),
    decreases pairs.len(),
{
    let lines = pairs.map_values(|p: (Seq<char>, Seq<char>)| entry_line(p));
    if pairs.len() == 0 {
        assert(conf_text(pairs) =~= Seq::<char>::empty());
        assert(lines.push(Seq::<char>::empty()) =~= seq![Seq::<char>::empty()]);
    } else {
        let q = pairs.drop_last();
        let l = entry_line(pairs.last());
        assert(lacks_char(entry_line(pairs[pairs.len() - 1]), '\n'));
        assert forall|i: int| 0 <= i < q.len() implies lacks_char(#[trigger] entry_line(q[i]), '\n') by {
            assert(q[i] == pairs[i]);
        }
        lemma_split_text(q);
        let t = conf_text(q);
        let qlines = q.map_values(|p: (Seq<char>, Seq<char>)| entry_line(p));
        assert((t + l + seq!['\n']).drop_last() =~= t + l);
        assert(split_char(conf_text(pairs), '\n') == split_char(t + l, '\n').push(Seq::<char>::empty()));
        if q.len() == 0 {
            assert(t =~= Seq::<char>::empty());
            assert(t + l =~= l);
            lemma_split_single(l, '\n');
        } else {
            let a = conf_text(q.drop_last()) + entry_line(q.last());
            assert(t == a + seq!['\n']);
            assert(t + l =~= a + seq!['\n'] + l);
            lemma_split_after(a, '\n', l);
            assert(a + seq!['\n'] + Seq::<char>::empty() =~= t);
            lemma_split_after(a, '\n', Seq::<char>::empty());
            assert(split_char(a, '\n') =~= split_char(t, '\n').drop_last());
            assert(split_char(a, '\n') =~= qlines);
        }
        assert(lines =~= qlines.push(l));
    }
}

/// The lines of valid entries read back as the entries; an empty line adds none.
proof fn lemma_entries_lines(pairs: Seq<(Seq<char>, Seq<char>)>)
    requires
        pairs_ok(pairs),
    ensures
        line_entries(pairs.map_values(|p: (Seq<char>, Seq<char>)| entry_line(p)).push(Seq::<char>::empty()))
            == pairs,
    decreases pairs.len(),
{
    let lines = pairs.map_values(|p: (Seq<char>, Seq<char>)| entry_line(p));
    let with_empty = lines.push(Seq::<char>::empty());
    assert(with_empty.drop_last() =~= lines);
    assert(trim(Seq::<char>::empty()) =~= Seq::<char>::empty());
    assert(line_entries(with_empty) == line_entries(lines));
    if pairs.len() == 0 {
        assert(line_entries(lines) =~= pairs);
    } else {
        let q = pairs.drop_last();
        assert(pairs_ok(q)) by {
            assert forall|i: int| 0 <= i < q.len() implies key_ok(#[trigger] q[i].0) && value_ok(q[i].1) by {
                assert(q[i] == pairs[i]);
            }
        }
        lemma_entries_lines(q);
        let qlines = q.map_values(|p: (Seq<char>, Seq<char>)| entry_line(p));
        assert(qlines.push(Seq::<char>::empty()).drop_last() =~= qlines);
        assert(trim(Seq::<char>::empty()) =~= Seq::<char>::empty());
        assert(line_entries(qlines.push(Seq::<char>::empty())) == line_entries(qlines));
        assert(lines.drop_last() =~= qlines);
        let p = pairs.last();
        assert(key_ok(pairs[pairs.len() - 1].0) && value_ok(pairs[pairs.len() - 1].1));
        lemma_line_parses(p);
        assert(lines.last() == entry_line(p));
        assert(line_entries(lines) == line_entries(qlines).push(p));
        assert(q.push(p) =~= pairs);
    }
}

/// Valid entries, written and read, are the entries.
pub proof fn lemma_conf_entries_of_text(pairs: Seq<(Seq<char>, Seq<char>)>)
    requires
        pairs_ok(pairs),
    ensures
        conf_entries(conf_text(pairs)) == pairs,
{
    assert forall|i: int| 0 <= i < pairs.len() implies lacks_char(#[trigger] entry_line(pairs[i]), '\n') by {
        assert(pairs_ok(pairs));
        let pi = pairs[i];
        assert(key_ok(pairs[i].0));
        assert(value_ok(pairs[i].1));
        lemma_line_parses(pi);
    }
    lemma_split_text(pairs);
    lemma_entries_lines(pairs);
}

/// The values of two runs of entries are those of the first, then the second.
proof fn lemma_values_concat(a: Seq<(Seq<char>, Seq<char>)>, b: Seq<(Seq<char>, Seq<char>)>)
    ensures
        forall|k: Seq<char>| #[trigger] values_for(a + b, k) == values_for(a, k) + values_for(b, k),
    decreases b.len(),
{
    if b.len() == 0 {
        assert(a + b =~= a);
        assert forall|k: Seq<char>| #[trigger] values_for(a + b, k) == values_for(a, k) + values_for(b, k) by {
            assert(values_for(a, k) + values_for(b, k) =~= values_for(a, k));
        }
    } else {
        lemma_values_concat(a, b.drop_last());
        assert((a + b).drop_last() =~= a + b.drop_last());
        assert((a + b).last() == b.last());
        assert forall|k: Seq<char>| #[trigger] values_for(a + b, k) == values_for(a, k) + values_for(b, k) by {
            assert(values_for(a + b.drop_last(), k) == values_for(a, k) + values_for(b.drop_last(), k));
            if b.last().0 == k {
                assert(values_for(a, k) + values_for(b, k) =~= (values_for(a, k) + values_for(
                    b.drop_last(),
                    k,
                )).push(b.last().1));
            } else {
                assert(values_for(a, k) + values_for(b, k) =~= values_for(a, k) + values_for(
                    b.drop_last(),
                    k,
                ));
            }
        }
    }
}

/// The values of one entry.
proof fn lemma_values_one(key: Seq<char>, v: Seq<char>)
    ensures
        forall|k: Seq<char>|
            #[trigger] values_for(one_entry(key, v), k) == if key == k {
                seq![v]
            } else {
                Seq::<Seq<char>>::empty()
            },
{
    let e = one_entry(key, v);
    assert(e.drop_last() =~= Seq::<(Seq<char>, Seq<char>)>::empty());
    assert forall|k: Seq<char>|
        #[trigger] values_for(e, k) == if key == k {
            seq![v]
        } else {
            Seq::<Seq<char>>::empty()
        } by {
        assert(values_for(e.drop_last(), k) =~= Seq::<Seq<char>>::empty());
        if key == k {
            assert(values_for(e, k) =~= seq![v]);
        }
    }
}

/// The keys are valid and pairwise different.
proof fn lemma_keys()
    ensures
        key_ok(KEY_INSTALL_PATH@),
        key_ok(KEY_SIDE_ALPHA@),
        key_ok(KEY_PANEL_ALPHA@),
        key_ok(KEY_DARK_ALPHA@),
        key_ok(KEY_DARK_PATH@),
        key_ok(KEY_DARK_CROP@),
        key_ok(KEY_LIGHT_ALPHA@),
        key_ok(KEY_LIGHT_PATH@),
        key_ok(KEY_LIGHT_CROP@),
        key_ok(KEY_VIDEO_PATH@),
        KEY_INSTALL_PATH@.len() == 12,
        KEY_SIDE_ALPHA@.len() == 10,
        KEY_PANEL_ALPHA@.len() == 11,
        KEY_DARK_ALPHA@.len() == 10,
        KEY_DARK_PATH@.len() == 9,
        KEY_DARK_CROP@.len() == 9,
        KEY_LIGHT_ALPHA@.len() == 11,
        KEY_LIGHT_PATH@.len() == 10,
        KEY_LIGHT_CROP@.len() == 10,
        KEY_VIDEO_PATH@.len() == 10,
        KEY_SIDE_ALPHA@[0] == 's',
        KEY_DARK_ALPHA@[0] == 'd',
        KEY_LIGHT_PATH@[0] == 'l',
        KEY_LIGHT_CROP@[0] == 'l',
        KEY_VIDEO_PATH@[0] == 'v',
        KEY_LIGHT_PATH@[6] == 'p',
        KEY_LIGHT_CROP@[6] == 'c',
        KEY_PANEL_ALPHA@[0] == 'p',
        KEY_LIGHT_ALPHA@[0] == 'l',
        KEY_DARK_PATH@[5] == 'p',
        KEY_DARK_CROP@[5] == 'c',
{
    reveal_strlit("install_path");
    reveal_strlit("side_alpha");
    reveal_strlit("panel_alpha");
    reveal_strlit("dark.alpha");
    reveal_strlit("dark.path");
    reveal_strlit("dark.crop");
    reveal_strlit("light.alpha");
    reveal_strlit("light.path");
    reveal_strlit("light.crop");
    reveal_strlit("video.path");
}

/// Two texts without `c` make one without `c`.
proof fn lemma_lacks_concat(x: Seq<char>, y: Seq<char>, c: char)
    requires
        lacks_char(x, c),
        lacks_char(y, c),
    ensures
        lacks_char(x + y, c),
{
    assert forall|m: int| 0 <= m < (x + y).len() implies (x + y)[m] != c by {
        if m < x.len() {
            assert((x + y)[m] == x[m]);
        } else {
            assert((x + y)[m] == y[m - x.len()]);
        }
    }
}

/// A crop selection written as one value reads back as its four numbers.
proof fn lemma_crop_line(c: CropText)
    requires
        crop_text_ok(c),
    ensures
        value_ok(crop_line(crop_view(c))),
        crop_parts(crop_line(crop_view(c))) == Some(crop_view(c)),
{
    let v = crop_view(c);
    assert(value_ok(v[0]) && lacks_char(v[0], ','));
    assert(value_ok(v[1]) && lacks_char(v[1], ','));
    assert(value_ok(v[2]) && lacks_char(v[2], ','));
    assert(value_ok(v[3]) && lacks_char(v[3], ','));
    let l = crop_line(v);
    let a1 = v[0];
    let a2 = a1 + seq![','] + v[1];
    let a3 = a2 + seq![','] + v[2];
    assert(l == a3 + seq![','] + v[3]);
    lemma_split_single(a1, ',');
    lemma_split_after(a1, ',', v[1]);
    lemma_split_after(a2, ',', v[2]);
    lemma_split_after(a3, ',', v[3]);
    assert(split_char(l, ',') =~= seq![v[0], v[1], v[2], v[3]]);
    assert(crop_parts(l) =~= Some(seq![v[0], v[1], v[2], v[3]])) by {
        assert(seq![trim(v[0]), trim(v[1]), trim(v[2]), trim(v[3])] =~= seq![v[0], v[1], v[2], v[3]]);
    }
    assert(seq![v[0], v[1], v[2], v[3]] =~= v);
    // The value is one trimmed line.
    lemma_lacks_concat(a1, seq![','], '\n');
    lemma_lacks_concat(a1 + seq![','], v[1], '\n');
    lemma_lacks_concat(a2, seq![','], '\n');
    lemma_lacks_concat(a2 + seq![','], v[2], '\n');
    lemma_lacks_concat(a3, seq![','], '\n');
    lemma_lacks_concat(a3 + seq![','], v[3], '\n');
    if v[0].len() > 0 {
        lemma_trimmed_ends(v[0]);
        assert(l[0] == v[0][0]);
    } else {
        assert(l[0] == ',');
    }
    if v[3].len() > 0 {
        lemma_trimmed_ends(v[3]);
        assert(l.last() == v[3].last());
    } else {
        assert(l.last() == ',');
    }
    lemma_trim_fixed(l);
}

/// Reading back the settings file written for some settings gives those
/// settings again: the install path, each opacity as the one value given, and
/// each path and crop selection as it was (or none, when there was none). This
/// holds where every value is one trimmed line, no path is empty, and no crop
/// number holds a comma.
pub proof fn law_conf_round_trip(s: SettingsText, r: ConfRead)
    requires
        settings_ok(s),
        conf_read_spec(r, conf_text(conf_pairs(s))),
    ensures
        r.install_path@ == s.install_path@,
        strs_view(r.side_alpha@) == seq![s.side_alpha@],
        strs_view(r.panel_alpha@) == seq![s.panel_alpha@],
        strs_view(r.dark_alpha@) == seq![s.dark_alpha@],
        opt_str(r.dark_path) == opt_str(s.dark_path),
        opt_crop(r.dark_crop) == opt_crop(s.dark_crop),
        strs_view(r.light_alpha@) == seq![s.light_alpha@],
        opt_str(r.light_path) == opt_str(s.light_path),
        opt_crop(r.light_crop) == opt_crop(s.light_crop),
        opt_str(r.video_path) == opt_str(s.video_path),
{
    lemma_keys();
    let s1 = one_entry(KEY_INSTALL_PATH@, s.install_path@);
    let s2 = one_entry(KEY_SIDE_ALPHA@, s.side_alpha@);
    let s3 = one_entry(KEY_PANEL_ALPHA@, s.panel_alpha@);
    let s4 = one_entry(KEY_DARK_ALPHA@, s.dark_alpha@);
    let s5 = opt_entry(KEY_DARK_PATH@, opt_str(s.dark_path));
    let s6 = crop_entry(KEY_DARK_CROP@, opt_crop(s.dark_crop));
    let s7 = one_entry(KEY_LIGHT_ALPHA@, s.light_alpha@);
    let s8 = opt_entry(KEY_LIGHT_PATH@, opt_str(s.light_path));
    let s9 = crop_entry(KEY_LIGHT_CROP@, opt_crop(s.light_crop));
    let s10 = opt_entry(KEY_VIDEO_PATH@, opt_str(s.video_path));
    let pairs = conf_pairs(s);
    assert(pairs == s1 + s2 + s3 + s4 + s5 + s6 + s7 + s8 + s9 + s10);
    if let Some(c) = s.dark_crop {
        lemma_crop_line(c);
    }
    if let Some(c) = s.light_crop {
        lemma_crop_line(c);
    }
    // Every entry written reads back as itself.
    assert(pairs_ok(pairs)) by {
        assert forall|i: int| 0 <= i < pairs.len() implies key_ok(#[trigger] pairs[i].0) && value_ok(
            pairs[i].1,
        ) by {
            let prefix = s1 + s2 + s3 + s4 + s5 + s6 + s7 + s8 + s9;
            if i >= prefix.len() {
                assert(pairs[i] == s10[i - prefix.len()]);
            } else {
                let p8 = s1 + s2 + s3 + s4 + s5 + s6 + s7 + s8;
                if i >= p8.len() {
                    assert(pairs[i] == s9[i - p8.len()]);
                } else {
                    let p7 = s1 + s2 + s3 + s4 + s5 + s6 + s7;
                    if i >= p7.len() {
                        assert(pairs[i] == s8[i - p7.len()]);
                    } else {
                        let p6 = s1 + s2 + s3 + s4 + s5 + s6;
                        if i >= p6.len() {
                            assert(pairs[i] == s7[i - p6.len()]);
                        } else {
                            let p5 = s1 + s2 + s3 + s4 + s5;
                            if i >= p5.len() {
                                assert(pairs[i] == s6[i - p5.len()]);
                            } else {
                                let p4 = s1 + s2 + s3 + s4;
                                if i >= p4.len() {
                                    assert(pairs[i] == s5[i - p4.len()]);
                                } else if i >= 3 {
                                    assert(pairs[i] == s4[0]);
                                } else if i >= 2 {
                                    assert(pairs[i] == s3[0]);
                                } else if i >= 1 {
                                    assert(pairs[i] == s2[0]);
                                } else {
                                    assert(pairs[i] == s1[0]);
                                }
                            }
                        }
                    }
                }
            }
        }
    }
    lemma_conf_entries_of_text(pairs);
    // The values of each key, run by run.
    lemma_values_concat(s1, s2);
    lemma_values_concat(s1 + s2, s3);
    lemma_values_concat(s1 + s2 + s3, s4);
    lemma_values_concat(s1 + s2 + s3 + s4, s5);
    lemma_values_concat(s1 + s2 + s3 + s4 + s5, s6);
    lemma_values_concat(s1 + s2 + s3 + s4 + s5 + s6, s7);
    lemma_values_concat(s1 + s2 + s3 + s4 + s5 + s6 + s7, s8);
    lemma_values_concat(s1 + s2 + s3 + s4 + s5 + s6 + s7 + s8, s9);
    lemma_values_concat(s1 + s2 + s3 + s4 + s5 + s6 + s7 + s8 + s9, s10);
    lemma_values_one(KEY_INSTALL_PATH@, s.install_path@);
    lemma_values_one(KEY_SIDE_ALPHA@, s.side_alpha@);
    lemma_values_one(KEY_PANEL_ALPHA@, s.panel_alpha@);
    lemma_values_one(KEY_DARK_ALPHA@, s.dark_alpha@);
    lemma_values_one(KEY_LIGHT_ALPHA@, s.light_alpha@);
    if let Some(p) = s.dark_path {
        lemma_values_one(KEY_DARK_PATH@, p@);
    }
    if let Some(p) = s.light_path {
        lemma_values_one(KEY_LIGHT_PATH@, p@);
    }
    if let Some(p) = s.video_path {
        lemma_values_one(KEY_VIDEO_PATH@, p@);
    }
    if let Some(c) = s.dark_crop {
        lemma_values_one(KEY_DARK_CROP@, crop_line(crop_view(c)));
    }
    if let Some(c) = s.light_crop {
        lemma_values_one(KEY_LIGHT_CROP@, crop_line(crop_view(c)));
    }
    let t = conf_text(pairs);
    assert(conf_values(t, KEY_INSTALL_PATH@) =~= seq![s.install_path@]);
    assert(conf_values(t, KEY_SIDE_ALPHA@) =~= seq![s.side_alpha@]);
    assert(conf_values(t, KEY_PANEL_ALPHA@) =~= seq![s.panel_alpha@]);
    assert(conf_values(t, KEY_DARK_ALPHA@) =~= seq![s.dark_alpha@]);
    assert(conf_values(t, KEY_LIGHT_ALPHA@) =~= seq![s.light_alpha@]);
    assert(conf_values(t, KEY_DARK_PATH@) =~= match s.dark_path {
        Some(p) => seq![p@],
        None => Seq::<Seq<char>>::empty(),
    });
    assert(conf_values(t, KEY_LIGHT_PATH@) =~= match s.light_path {
        Some(p) => seq![p@],
        None => Seq::<Seq<char>>::empty(),
    });
    assert(conf_values(t, KEY_VIDEO_PATH@) =~= match s.video_path {
        Some(p) => seq![p@],
        None => Seq::<Seq<char>>::empty(),
    });
    assert(conf_values(t, KEY_DARK_CROP@) =~= match s.dark_crop {
        Some(c) => seq![crop_line(crop_view(c))],
        None => Seq::<Seq<char>>::empty(),
    });
    assert(conf_values(t, KEY_LIGHT_CROP@) =~= match s.light_crop {
        Some(c) => seq![crop_line(crop_view(c))],
        None => Seq::<Seq<char>>::empty(),
    });
}

/// Reading an empty settings file gives no value for any key: an empty install
/// path, no opacity (the caller keeps its defaults), no path and no crop.
pub proof fn law_conf_empty(r: ConfRead)
    requires
        conf_read_spec(r, Seq::<char>::empty()),
    ensures
        r.install_path@ == Seq::<char>::empty(),
        r.side_alpha@.len() == 0,
        r.panel_alpha@.len() == 0,
        r.dark_alpha@.len() == 0,
        r.light_alpha@.len() == 0,
        r.dark_path is None,
        r.light_path is None,
        r.video_path is None,
        r.dark_crop is None,
        r.light_crop is None,
{
    let e = Seq::<char>::empty();
    assert(split_char(e, '\n') == seq![Seq::<char>::empty()]);
    let ls = seq![Seq::<char>::empty()];
    assert(ls.drop_last() =~= Seq::<Seq<char>>::empty());
    assert(ls.last() == Seq::<char>::empty());
    assert(trim(Seq::<char>::empty()) =~= Seq::<char>::empty());
    assert(!is_entry_line(trim(ls.last())));
    assert(line_entries(ls.drop_last()) =~= Seq::<(Seq<char>, Seq<char>)>::empty());
    assert(line_entries(ls) == line_entries(ls.drop_last()));
    assert(conf_entries(e) =~= Seq::<(Seq<char>, Seq<char>)>::empty());
    assert forall|k: Seq<char>| #[trigger] conf_values(e, k) == Seq::<Seq<char>>::empty() by {}
    assert(strs_view(r.side_alpha@).len() == 0);
    assert(strs_view(r.panel_alpha@).len() == 0);
    assert(strs_view(r.dark_alpha@).len() == 0);
    assert(strs_view(r.light_alpha@).len() == 0);
}

/// A line that gives no value to `key`: blank, a `#` comment, or an entry for
/// another key.
pub open spec fn ignored_line(l: Seq<char>, key: Seq<char>) -> bool {
    !is_entry_line(trim(l)) || line_entry(trim(l)).0 != key
}

/// A line appended to a settings text that gives no value to `key` (blank, a
/// comment, or another key, such as an unknown one) changes nothing for `key`.
pub proof fn law_conf_ignores_line(t: Seq<char>, l: Seq<char>, key: Seq<char>)
    requires
        lacks_char(l, '\n'),
        ignored_line(l, key),
    ensures
        conf_values(t + seq!['\n'] + l, key) == conf_values(t, key),
{
    lemma_split_after(t, '\n', l);
    let lines = split_char(t, '\n');
    let lines2 = lines.push(l);
    assert(lines2.drop_last() =~= lines);
    assert(lines2.last() == l);
    let es = line_entries(lines);
    let tl = trim(l);
    if is_entry_line(tl) {
        let e2 = es.push(line_entry(tl));
        assert(e2.drop_last() =~= es);
        assert(values_for(e2, key) == values_for(es, key));
    }
}

/// `t` followed by each of `ls` on a line of its own.
pub open spec fn append_lines(t: Seq<char>, ls: Seq<Seq<char>>) -> Seq<char>
    decreases ls.len(),
{
    if ls.len() == 0 {
        t
    } else {
        append_lines(t, ls.drop_last()) + seq!['\n'] + ls.last()
    }
}

/// Any number of lines appended to a settings text that give no value to `key`
/// (blank lines, comments, other or unknown keys) change nothing for `key`.
pub proof fn law_conf_ignores_lines(t: Seq<char>, ls: Seq<Seq<char>>, key: Seq<char>)
    requires
        forall|i: int| 0 <= i < ls.len() ==> lacks_char(#[trigger] ls[i], '\n') && ignored_line(ls[i], key),
    ensures
        conf_values(append_lines(t, ls), key) == conf_values(t, key),
    decreases ls.len(),
{
    if ls.len() > 0 {
        let last = ls.last();
        assert(lacks_char(ls[ls.len() - 1], '\n'));
        law_conf_ignores_lines(t, ls.drop_last(), key);
        law_conf_ignores_line(append_lines(t, ls.drop_last()), last, key);
    }
}

} // verus!
