//! The text formats of the Rime dictionaries: the manifest's import list and the
//! tab-separated entry lines.
use vstd::prelude::*;
use vstd::string::*;
use crate::lattice::{join_spaces, str_views};
use crate::scan::{
    is_space, lines, lines_of, lower_ascii, lower_ascii_chars, rows, split, split_chars,
    starts_with, starts_with_chars, trim, trim_chars, trim_set, words, words_of, CharSet,
};
use crate::syllable::{joined, vec_chars_eq};
use crate::text::{chars_of, push_char, string_from_chars};

verus! {

/// What `str::to_lowercase` returns for a string: the Unicode lowercase mapping.
pub uninterp spec fn unicode_lowercase(s: Seq<char>) -> Seq<char>;

/// What `char::to_lowercase` yields for one character.
pub uninterp spec fn char_lowercase(c: char) -> Seq<char>;

/// `str::to_lowercase`. The contract names the result; the Unicode case tables are not
/// restated here.
#[verifier::external_body]
fn lowercase_str(s: &str) -> (r: String)
    ensures
        r@ == unicode_lowercase(s@),
{
    s.to_lowercase()
}

/// `char::to_lowercase`, collected. The contract names the result; the Unicode case tables
/// are not restated here.
#[verifier::external_body]
fn lowercase_char(c: char) -> (r: Vec<char>)
    ensures
        r@ == char_lowercase(c),
{
    c.to_lowercase().collect()
}

/// The import value of a list line `- value  # comment` (`t` is the trimmed line).
pub open spec fn import_value(t: Seq<char>) -> Seq<char> {
    trim_set(trim(split(t.drop_first(), '#')[0]), CharSet::Quote)
}

/// Reading the manifest's lines: inside `import_tables:`, stopped at the first line after it
/// that is not indented, and the values found so far.
pub open spec fn imports_state(ls: Seq<Seq<char>>) -> (bool, bool, Seq<Seq<char>>)
    decreases ls.len(),
{
    if ls.len() == 0 {
        (false, false, seq![])
    } else {
        let (inside, stopped, found) = imports_state(ls.drop_last());
        let line = ls.last();
        let t = trim(line);
        if stopped {
            (inside, stopped, found)
        } else if t == "import_tables:"@ {
            (true, false, found)
        } else if inside && !(line.len() > 0 && (line[0] == ' ' || line[0] == '\t')) {
            (inside, true, found)
        } else if !inside {
            (inside, stopped, found)
        } else if t.len() > 0 && t[0] == '-' && import_value(t).len() > 0 {
            (inside, stopped, found.push(import_value(t)))
        } else {
            (inside, stopped, found)
        }
    }
}

/// The dictionaries listed under `import_tables:` in a Rime manifest.
pub open spec fn imports(contents: Seq<char>) -> Seq<Seq<char>> {
    imports_state(lines(contents)).2
}

/// The enabled `import_tables` entries of a dictionary manifest, in order.
pub fn parse_imports(contents: &str) -> (r: Vec<String>)
    ensures
        str_views(r@) == imports(contents@),
{
    let ls = lines_of(contents);
    let key = chars_of("import_tables:");
    let mut inside = false;
    let mut stopped = false;
    let mut found: Vec<String> = Vec::new();
    let mut i: usize = 0;
    while i < ls.len()
        invariant
            i <= ls@.len(),
            rows(ls@) == lines(contents@),
            key@ == "import_tables:"@,
            (inside, stopped, str_views(found@)) == imports_state(rows(ls@).take(i as int)),
        decreases ls.len() - i,
    {
        proof {
            assert(rows(ls@).take(i + 1).drop_last() =~= rows(ls@).take(i as int));
            assert(rows(ls@).take(i + 1).last() == ls@[i as int]@);
        }
        let line = &ls[i];
        let t = trim_chars(line, CharSet::Space);
        if stopped {
        } else if vec_chars_eq(&t, &key) {
            inside = true;
        } else if inside && !(line.len() > 0 && (line[0] == ' ' || line[0] == '\t')) {
            stopped = true;
        } else if !inside {
        } else if t.len() > 0 && t[0] == '-' {
            let mut rest: Vec<char> = Vec::new();
            let mut k: usize = 1;
            while k < t.len()
                invariant
                    1 <= k <= t@.len(),
                    rest@ == t@.subrange(1, k as int),
                decreases t.len() - k,
            {
                rest.push(t[k]);
                k = k + 1;
                proof {
                    assert(rest@ =~= t@.subrange(1, k as int));
                }
            }
            proof {
                assert(rest@ =~= t@.drop_first());
            }
            let pieces = split_chars(&rest, '#');
            proof {
                assert(rows(pieces@).len() == pieces@.len());
                assert(split(rest@, '#').len() > 0);
                assert(rows(pieces@)[0] == pieces@[0]@);
            }
            let before = trim_chars(&pieces[0], CharSet::Space);
            let value = trim_chars(&before, CharSet::Quote);
            if value.len() > 0 {
                let ghost f = str_views(found@);
                found.push(string_from_chars(&value));
                proof {
                    assert(str_views(found@) =~= f.push(value@));
                }
            }
        }
        i = i + 1;
    }
    proof {
        assert(rows(ls@).take(ls@.len() as int) =~= rows(ls@));
    }
    found
}

/// Apostrophes and hyphens read as syllable separators.
pub open spec fn marks_to_spaces(s: Seq<char>) -> Seq<char> {
    s.map_values(|c: char| if c == '\'' || c == '-' { ' ' } else { c })
}

/// The syllable key of a preedit: its words, lower-cased, joined by single spaces, where
/// apostrophes and hyphens separate words too.
pub open spec fn syllable_key_of(value: Seq<char>) -> Seq<char> {
    joined(words(marks_to_spaces(value)).map_values(|w: Seq<char>| unicode_lowercase(w)))
}

/// Collapses whitespace runs, apostrophes and hyphens into single spaces and lower-cases the
/// syllables, so `xi an`, `xi'an` and `Xi  AN` all become `xi an`.
pub fn normalize_syllables(value: &str) -> (r: String)
    ensures
        r@ == syllable_key_of(value@),
{
    let v = chars_of(value);
    let mut m: Vec<char> = Vec::new();
    let mut i: usize = 0;
    while i < v.len()
        invariant
            i <= v@.len(),
            m@ == marks_to_spaces(v@.take(i as int)),
        decreases v.len() - i,
    {
        let c = v[i];
        if c == '\'' || c == '-' {
            m.push(' ');
        } else {
            m.push(c);
        }
        i = i + 1;
        proof {
            assert(m@ =~= marks_to_spaces(v@.take(i as int)));
        }
    }
    proof {
        assert(v@.take(v@.len() as int) =~= v@);
    }
    let ws = words_of(&m);
    let mut lowered: Vec<String> = Vec::new();
    let mut j: usize = 0;
    while j < ws.len()
        invariant
            j <= ws@.len(),
            rows(ws@) == words(m@),
            str_views(lowered@) == rows(ws@).take(j as int).map_values(
                |w: Seq<char>| unicode_lowercase(w),
            ),
        decreases ws.len() - j,
    {
        let word = string_from_chars(&ws[j]);
        let low = lowercase_str(word.as_str());
        let ghost prev = str_views(lowered@);
        lowered.push(low);
        j = j + 1;
        proof {
            assert(str_views(lowered@) =~= prev.push(unicode_lowercase(ws@[j - 1]@)));
            assert(rows(ws@).take(j as int).map_values(|w: Seq<char>| unicode_lowercase(w))
                =~= rows(ws@).take(j - 1).map_values(|w: Seq<char>| unicode_lowercase(w)).push(
                unicode_lowercase(ws@[j - 1]@),
            ));
        }
    }
    proof {
        assert(rows(ws@).take(ws@.len() as int) =~= rows(ws@));
    }
    join_spaces(&lowered)
}

/// A character of the CJK unified ideograph blocks (extension A, the main block, and the
/// compatibility ideographs).
pub open spec fn is_cjk(c: char) -> bool {
    let code = c as u32;
    (0x3400 <= code && code <= 0x4dbf) || (0x4e00 <= code && code <= 0x9fff) || (0xf900 <= code
        && code <= 0xfaff)
}

/// Executable counterpart of [`is_cjk`].
pub fn is_cjk_char(c: char) -> (b: bool)
    ensures
        b == is_cjk(c),
{
    let code = c as u32;
    (0x3400 <= code && code <= 0x4dbf) || (0x4e00 <= code && code <= 0x9fff) || (0xf900 <= code
        && code <= 0xfaff)
}

/// At least one character of `s` is an ideograph.
pub open spec fn has_cjk(s: Seq<char>) -> bool {
    exists|i: int| 0 <= i < s.len() && is_cjk(#[trigger] s[i])
}

/// `s` is non-empty and made of ideographs only.
pub open spec fn all_cjk(s: Seq<char>) -> bool {
    s.len() > 0 && forall|i: int| 0 <= i < s.len() ==> is_cjk(#[trigger] s[i])
}

/// Whether `text` holds at least one Chinese ideograph (dictionary entries).
pub fn is_chinese_text(text: &str) -> (b: bool)
    ensures
        b == has_cjk(text@),
{
    let v = chars_of(text);
    let mut i: usize = 0;
    while i < v.len()
        invariant
            i <= v@.len(),
            v@ == text@,
            forall|j: int| 0 <= j < i ==> !is_cjk(#[trigger] v@[j]),
        decreases v.len() - i,
    {
        if is_cjk_char(v[i]) {
            return true;
        }
        i = i + 1;
    }
    false
}

/// Whether `text` is non-empty and holds Chinese ideographs only (generated predictions).
pub fn is_all_chinese_text(text: &Vec<char>) -> (b: bool)
    ensures
        b == all_cjk(text@),
{
    if text.len() == 0 {
        return false;
    }
    let mut i: usize = 0;
    while i < text.len()
        invariant
            i <= text@.len(),
            forall|j: int| 0 <= j < i ==> is_cjk(#[trigger] text@[j]),
        decreases text.len() - i,
    {
        if !is_cjk_char(text[i]) {
            return false;
        }
        i = i + 1;
    }
    true
}

/// Every space-separated piece of `code` is a non-empty run of `a`..=`z`.
pub open spec fn syllable_code(code: Seq<char>) -> bool {
    forall|i: int|
        0 <= i < split(code, ' ').len() ==> {
            let p = #[trigger] split(code, ' ')[i];
            p.len() > 0 && forall|j: int| 0 <= j < p.len() ==> crate::text::is_lower_letter(p[j])
        }
}

/// Whether every space-separated syllable of `code` is a non-empty run of lowercase letters.
#[verifier::loop_isolation(false)]
pub fn is_syllable_code(code: &str) -> (b: bool)
    ensures
        b == syllable_code(code@),
{
    let v = chars_of(code);
    let pieces = split_chars(&v, ' ');
    let mut i: usize = 0;
    while i < pieces.len()
        invariant
            i <= pieces@.len(),
            rows(pieces@) == split(code@, ' '),
            forall|k: int|
                0 <= k < i ==> {
                    let p = #[trigger] split(code@, ' ')[k];
                    p.len() > 0 && forall|j: int|
                        0 <= j < p.len() ==> crate::text::is_lower_letter(p[j])
                },
        decreases pieces.len() - i,
    {
        let p = &pieces[i];
        proof {
            assert(rows(pieces@)[i as int] == p@);
            assert(split(code@, ' ')[i as int] == p@);
        }
        if p.len() == 0 {
            return false;
        }
        let mut j: usize = 0;
        while j < p.len()
            invariant
                j <= p@.len(),
                forall|k: int| 0 <= k < j ==> crate::text::is_lower_letter(p@[k]),
            decreases p.len() - j,
        {
            if !('a' <= p[j] && p[j] <= 'z') {
                proof {
                    assert(split(code@, ' ')[i as int] == p@);
                    assert(!crate::text::is_lower_letter(p@[j as int]));
                }
                return false;
            }
            j = j + 1;
        }
        i = i + 1;
    }
    true
}

/// The number of characters of `s` other than the space.
pub open spec fn count_non_space(s: Seq<char>) -> nat
    decreases s.len(),
{
    if s.len() == 0 {
        0
    } else {
        count_non_space(s.drop_last()) + if s.last() == ' ' {
            0nat
        } else {
            1nat
        }
    }
}

fn non_space_count(v: &Vec<char>) -> (n: usize)
    ensures
        n == count_non_space(v@),
{
    let mut n: usize = 0;
    let mut i: usize = 0;
    while i < v.len()
        invariant
            i <= v@.len(),
            n == count_non_space(v@.take(i as int)),
            n <= i,
        decreases v.len() - i,
    {
        proof {
            assert(v@.take(i + 1).drop_last() =~= v@.take(i as int));
        }
        if v[i] != ' ' {
            n = n + 1;
        }
        i = i + 1;
    }
    proof {
        assert(v@.take(v@.len() as int) =~= v@);
    }
    n
}

/// The fields of a dictionary entry line before the weight is read as a number.
pub struct DictLine {
    /// The entry's text (first column, trimmed).
    pub text: String,
    /// The syllable key of the preedit, for example `bu ru`.
    pub code: String,
    /// The preedit as written, trimmed and ASCII-lower-cased.
    pub preedit: String,
    /// Letters of the code without the spaces.
    pub consumed_keys: usize,
    /// The first word of the third column, when there is one.
    pub weight: Option<String>,
}

/// The line is blank after trimming, a comment, or a YAML document marker.
pub open spec fn skipped_line(l: Seq<char>) -> bool {
    l.len() == 0 || starts_with(l, "#"@) || starts_with(l, "---"@)
}

/// The first word of the weight column, when there is a third column with a word in it.
pub open spec fn weight_word(fields: Seq<Seq<char>>) -> Option<Seq<char>> {
    if fields.len() >= 3 && words(fields[2]).len() > 0 {
        Some(words(fields[2])[0])
    } else {
        None
    }
}

/// The fields of a `text<TAB>preedit[<TAB>weight]` dictionary line, when it is an entry: a
/// non-empty text with an ideograph and a preedit whose syllable key is a non-empty sequence of
/// lowercase syllables.
pub open spec fn dict_line(line: Seq<char>) -> Option<
    (Seq<char>, Seq<char>, Seq<char>, nat, Option<Seq<char>>),
> {
    let l = trim(line);
    let fields = split(l, '\t');
    let text = trim(fields[0]);
    let preedit = lower_ascii(trim(fields[1]));
    let code = syllable_key_of(preedit);
    if skipped_line(l) || fields.len() < 2 {
        None
    } else if text.len() == 0 || code.len() == 0 || !has_cjk(text) || !syllable_code(code) {
        None
    } else {
        Some((text, code, preedit, count_non_space(code), weight_word(fields)))
    }
}

/// The view of a parsed line, in the order of [`dict_line`].
pub open spec fn dict_line_view(d: DictLine) -> (
    Seq<char>,
    Seq<char>,
    Seq<char>,
    nat,
    Option<Seq<char>>,
) {
    (
        d.text@,
        d.code@,
        d.preedit@,
        d.consumed_keys as nat,
        match d.weight {
            Some(w) => Some(w@),
            None => None,
        },
    )
}

/// Reads one dictionary line: `None` for blank lines, comments, headers, lines without a
/// preedit column, and entries that are not Chinese text over pinyin syllables.
pub fn parse_dict_line(line: &str) -> (r: Option<DictLine>)
    ensures
        match r {
            Some(d) => dict_line(line@) == Some(dict_line_view(d)),
            None => dict_line(line@) is None,
        },
{
    let v = chars_of(line);
    let l = trim_chars(&v, CharSet::Space);
    let hash = chars_of("#");
    let dashes = chars_of("---");
    if l.len() == 0 || starts_with_chars(&l, &hash) || starts_with_chars(&l, &dashes) {
        return None;
    }
    let fields = split_chars(&l, '\t');
    if fields.len() < 2 {
        return None;
    }
    proof {
        assert(rows(fields@)[0] == fields@[0]@);
        assert(rows(fields@)[1] == fields@[1]@);
    }
    let text_chars = trim_chars(&fields[0], CharSet::Space);
    let pre_trim = trim_chars(&fields[1], CharSet::Space);
    let pre_chars = lower_ascii_chars(&pre_trim);
    let preedit = string_from_chars(&pre_chars);
    let code = normalize_syllables(preedit.as_str());
    let text = string_from_chars(&text_chars);
    if text_chars.len() == 0 || code.as_str().unicode_len() == 0 {
        return None;
    }
    if !is_chinese_text(text.as_str()) || !is_syllable_code(code.as_str()) {
        return None;
    }
    let code_chars = chars_of(code.as_str());
    let consumed_keys = non_space_count(&code_chars);
    let weight = if fields.len() >= 3 {
        proof {
            assert(rows(fields@)[2] == fields@[2]@);
        }
        let ws = words_of(&fields[2]);
        if ws.len() > 0 {
            proof {
                assert(rows(ws@)[0] == ws@[0]@);
            }
            Some(string_from_chars(&ws[0]))
        } else {
            None
        }
    } else {
        None
    };
    Some(DictLine { text, code, preedit, consumed_keys, weight })
}

/// The compact code of a preedit: whitespace removed and each character lower-cased by
/// `char::to_lowercase`.
pub open spec fn compact_code(s: Seq<char>) -> Seq<char>
    decreases s.len(),
{
    if s.len() == 0 {
        seq![]
    } else {
        compact_code(s.drop_last()) + if is_space(s.last()) {
            seq![]
        } else {
            char_lowercase(s.last())
        }
    }
}

/// Removes whitespace and lower-cases, so `Bu Ru` becomes `buru`.
pub fn normalize_code(value: &str) -> (r: String)
    ensures
        r@ == compact_code(value@),
{
    let v = chars_of(value);
    let mut out = String::new();
    let mut i: usize = 0;
    while i < v.len()
        invariant
            i <= v@.len(),
            v@ == value@,
            out@ == compact_code(v@.take(i as int)),
        decreases v.len() - i,
    {
        proof {
            assert(v@.take(i + 1).drop_last() =~= v@.take(i as int));
        }
        let c = v[i];
        if !crate::scan::is_space_char(c) {
            let low = lowercase_char(c);
            let mut k: usize = 0;
            let ghost before = out@;
            while k < low.len()
                invariant
                    k <= low@.len(),
                    out@ == before + low@.take(k as int),
                decreases low.len() - k,
            {
                push_char(&mut out, low[k]);
                k = k + 1;
                proof {
                    assert(out@ =~= before + low@.take(k as int));
                }
            }
            proof {
                assert(low@.take(low@.len() as int) =~= low@);
            }
        } else {
            proof {
                assert(out@ =~= out@ + Seq::<char>::empty());
            }
        }
        i = i + 1;
    }
    proof {
        assert(v@.take(v@.len() as int) =~= v@);
    }
    out
}

/// `code` is made of `a`..=`z` only.
pub open spec fn pinyin_code(code: Seq<char>) -> bool {
    forall|i: int| 0 <= i < code.len() ==> crate::text::is_lower_letter(#[trigger] code[i])
}

/// Whether `code` holds lowercase ASCII letters only.
pub fn is_pinyin_code(code: &str) -> (b: bool)
    ensures
        b == pinyin_code(code@),
{
    let v = chars_of(code);
    let mut i: usize = 0;
    while i < v.len()
        invariant
            i <= v@.len(),
            v@ == code@,
            forall|j: int| 0 <= j < i ==> crate::text::is_lower_letter(#[trigger] v@[j]),
        decreases v.len() - i,
    {
        if !('a' <= v[i] && v[i] <= 'z') {
            return false;
        }
        i = i + 1;
    }
    true
}

/// The fields of a dictionary line for the model service's lexicon, whose code is the compact
/// code: the same rules as [`dict_line`] with [`compact_code`] and [`pinyin_code`].
pub open spec fn compact_dict_line(line: Seq<char>) -> Option<
    (Seq<char>, Seq<char>, Seq<char>, nat, Option<Seq<char>>),
> {
    let l = trim(line);
    let fields = split(l, '\t');
    let text = trim(fields[0]);
    let preedit = lower_ascii(trim(fields[1]));
    let code = compact_code(preedit);
    if skipped_line(l) || fields.len() < 2 {
        None
    } else if text.len() == 0 || code.len() == 0 || !has_cjk(text) || !pinyin_code(code) {
        None
    } else {
        Some((text, code, preedit, code.len(), weight_word(fields)))
    }
}

/// Reads one dictionary line for the model service's lexicon, keyed by the compact code.
pub fn parse_compact_line(line: &str) -> (r: Option<DictLine>)
    ensures
        match r {
            Some(d) => compact_dict_line(line@) == Some(dict_line_view(d)),
            None => compact_dict_line(line@) is None,
        },
{
    let v = chars_of(line);
    let l = trim_chars(&v, CharSet::Space);
    let hash = chars_of("#");
    let dashes = chars_of("---");
    if l.len() == 0 || starts_with_chars(&l, &hash) || starts_with_chars(&l, &dashes) {
        return None;
    }
    let fields = split_chars(&l, '\t');
    if fields.len() < 2 {
        return None;
    }
    proof {
        assert(rows(fields@)[0] == fields@[0]@);
        assert(rows(fields@)[1] == fields@[1]@);
    }
    let text_chars = trim_chars(&fields[0], CharSet::Space);
    let pre_trim = trim_chars(&fields[1], CharSet::Space);
    let pre_chars = lower_ascii_chars(&pre_trim);
    let preedit = string_from_chars(&pre_chars);
    let code = normalize_code(preedit.as_str());
    let text = string_from_chars(&text_chars);
    let code_len = code.as_str().unicode_len();
    if text_chars.len() == 0 || code_len == 0 {
        return None;
    }
    if !is_chinese_text(text.as_str()) || !is_pinyin_code(code.as_str()) {
        return None;
    }
    let weight = if fields.len() >= 3 {
        proof {
            assert(rows(fields@)[2] == fields@[2]@);
        }
        let ws = words_of(&fields[2]);
        if ws.len() > 0 {
            proof {
                assert(rows(ws@)[0] == ws@[0]@);
            }
            Some(string_from_chars(&ws[0]))
        } else {
            None
        }
    } else {
        None
    };
    Some(DictLine { text, code, preedit, consumed_keys: code_len, weight })
}

/// `base` joined with the relative or absolute path `rel`, as `Path::join` does on Unix: an
/// absolute `rel` replaces the base, and a separator is added unless `base` is empty or
/// already ends with one.
pub open spec fn path_join(base: Seq<char>, rel: Seq<char>) -> Seq<char> {
    if rel.len() > 0 && rel[0] == '/' {
        rel
    } else if base.len() == 0 || base.last() == '/' {
        base + rel
    } else {
        base + seq!['/'] + rel
    }
}

/// Executable counterpart of [`path_join`].
pub fn join_path(base: &str, rel: &str) -> (r: String)
    ensures
        r@ == path_join(base@, rel@),
{
    let b = chars_of(base);
    let r = chars_of(rel);
    if r.len() > 0 && r[0] == '/' {
        return string_from_chars(&r);
    }
    let mut out = string_from_chars(&b);
    if !(b.len() == 0 || b[b.len() - 1] == '/') {
        push_char(&mut out, '/');
    }
    out.append(rel);
    out
}

/// The paths that an import may name, in the order they are tried: the import itself, then
/// with `.dict.yaml`, then with `.yaml`.
pub fn import_candidates(root: &str, import: &str) -> (r: Vec<String>)
    ensures
        r@.len() == 3,
        r@[0]@ == path_join(root@, import@),
        r@[1]@ == path_join(root@, import@ + ".dict.yaml"@),
        r@[2]@ == path_join(root@, import@ + ".yaml"@),
{
    let mut with_dict = import.to_owned();
    with_dict.append(".dict.yaml");
    let mut with_yaml = import.to_owned();
    with_yaml.append(".yaml");
    let mut r: Vec<String> = Vec::new();
    r.push(join_path(root, import));
    r.push(join_path(root, with_dict.as_str()));
    r.push(join_path(root, with_yaml.as_str()));
    r
}

/// The first of `paths` that exists, given for each whether it is a file.
pub fn first_existing(paths: &Vec<String>, is_file: &Vec<bool>) -> (r: Option<String>)
    requires
        paths@.len() == is_file@.len(),
    ensures
        match r {
            Some(p) => exists|i: int|
                0 <= i < paths@.len() && is_file@[i] && p == paths@[i] && forall|j: int|
                    0 <= j < i ==> !is_file@[j],
            None => forall|j: int| 0 <= j < paths@.len() ==> !is_file@[j],
        },
{
    let mut i: usize = 0;
    while i < is_file.len()
        invariant
            i <= is_file@.len(),
            paths@.len() == is_file@.len(),
            forall|j: int| 0 <= j < i ==> !is_file@[j],
        decreases is_file.len() - i,
    {
        if is_file[i] {
            let p = paths[i].clone();
            proof {
                assert(is_file@[i as int] && p == paths@[i as int]);
            }
            return Some(p);
        }
        i = i + 1;
    }
    None
}

/// Adds `path` to `files` unless it is already there.
pub fn push_unique(files: &mut Vec<String>, path: String)
    ensures
        str_views(old(files)@).contains(path@) ==> final(files)@ == old(files)@,
        !str_views(old(files)@).contains(path@) ==> final(files)@ == old(files)@.push(path),
{
    let mut i: usize = 0;
    while i < files.len()
        invariant
            i <= files@.len(),
            forall|j: int| 0 <= j < i ==> (#[trigger] files@[j])@ != path@,
        decreases files.len() - i,
    {
        if files[i] == path {
            proof {
                assert(str_views(files@)[i as int] == path@);
            }
            return;
        }
        i = i + 1;
    }
    proof {
        if str_views(files@).contains(path@) {
            let k = choose|k: int| 0 <= k < str_views(files@).len() && str_views(files@)[k] == path@;
            assert(files@[k]@ == path@);
        }
    }
    files.push(path);
}

/// A file name whose extension is `yaml`: something before a final `.yaml`.
pub open spec fn yaml_name(n: Seq<char>) -> bool {
    n.len() > 5 && n.skip(n.len() - 5) == ".yaml"@
}

/// The names among `names` with the `yaml` extension.
pub open spec fn yaml_names(names: Seq<Seq<char>>) -> Seq<Seq<char>>
    decreases names.len(),
{
    if names.len() == 0 {
        seq![]
    } else {
        let d = yaml_names(names.drop_last());
        if yaml_name(names.last()) {
            d.push(names.last())
        } else {
            d
        }
    }
}

/// The dictionary files found in a directory listing: the entries named `*.yaml`, in
/// ascending name order, as paths under `dir`.
pub fn yaml_dictionary_files(dir: &str, names: &Vec<String>) -> (r: Vec<String>)
    ensures
        exists|sorted: Seq<Seq<char>>, idx: Seq<int>|
            {
                &&& crate::order::reorders(sorted, yaml_names(str_views(names@)), idx)
                &&& forall|a: int, b: int|
                    0 <= a < b < sorted.len() ==> !crate::text::lex_lt(
                        #[trigger] sorted[b],
                        #[trigger] sorted[a],
                    )
                &&& r@.len() == sorted.len()
                &&& forall|i: int| 0 <= i < r@.len() ==> (#[trigger] r@[i])@ == path_join(dir@, sorted[i])
            },
{
    let ghost nv = str_views(names@);
    let suffix = chars_of(".yaml");
    let mut picked: Vec<String> = Vec::new();
    let mut i: usize = 0;
    while i < names.len()
        invariant
            i <= names@.len(),
            nv == str_views(names@),
            suffix@ == ".yaml"@,
            str_views(picked@) == yaml_names(nv.take(i as int)),
        decreases names.len() - i,
    {
        proof {
            assert(nv.take(i + 1).drop_last() =~= nv.take(i as int));
            assert(nv.take(i + 1).last() == names@[i as int]@);
        }
        let c = chars_of(names[i].as_str());
        let mut is_yaml = false;
        if c.len() > 5 {
            let mut tail: Vec<char> = Vec::new();
            let mut k = c.len() - 5;
            while k < c.len()
                invariant
                    c@.len() > 5,
                    c@.len() - 5 <= k <= c@.len(),
                    tail@ == c@.subrange(c@.len() - 5, k as int),
                decreases c.len() - k,
            {
                tail.push(c[k]);
                k = k + 1;
                proof {
                    assert(tail@ =~= c@.subrange(c@.len() - 5, k as int));
                }
            }
            proof {
                assert(tail@ =~= c@.skip(c@.len() - 5));
            }
            is_yaml = vec_chars_eq(&tail, &suffix);
        }
        if is_yaml {
            let ghost pv = str_views(picked@);
            picked.push(names[i].clone());
            proof {
                assert(str_views(picked@) =~= pv.push(names@[i as int]@));
            }
        }
        i = i + 1;
    }
    proof {
        assert(nv.take(nv.len() as int) =~= nv);
    }
    let ghost pv = str_views(picked@);
    let mut sorted: Vec<Vec<char>> = Vec::new();
    let ghost mut idx: Seq<int> = Seq::empty();
    let mut j: usize = 0;
    while j < picked.len()
        invariant
            j <= picked@.len(),
            pv == str_views(picked@),
            sorted@.len() == j,
            idx.len() == j,
            forall|x: int| 0 <= x < j ==> 0 <= #[trigger] idx[x] < j && sorted@[x]@ == pv[idx[x]],
            forall|x: int, y: int| 0 <= x < y < j ==> #[trigger] idx[x] != #[trigger] idx[y],
            forall|x: int, y: int|
                0 <= x < y < j ==> !crate::text::lex_lt(#[trigger] sorted@[y]@, #[trigger] sorted@[x]@),
        decreases picked.len() - j,
    {
        let x = chars_of(picked[j].as_str());
        let mut p: usize = 0;
        while p < sorted.len() && !crate::text::lex_less(&x, &sorted[p])
            invariant
                p <= sorted@.len(),
                forall|q: int| 0 <= q < p ==> !crate::text::lex_lt(x@, #[trigger] sorted@[q]@),
            decreases sorted.len() - p,
        {
            p = p + 1;
        }
        let ghost old_sorted = sorted@;
        let ghost old_idx = idx;
        sorted.insert(p, x);
        proof {
            idx = old_idx.insert(p as int, j as int);
            assert(x@ == pv[j as int]);
            assert forall|u: int, v: int| 0 <= u < v < sorted@.len() implies !crate::text::lex_lt(
                #[trigger] sorted@[v]@,
                #[trigger] sorted@[u]@,
            ) by {
                if u < p && v == p {
                    assert(sorted@[u] == old_sorted[u]);
                } else if u == p && v > p {
                    assert(sorted@[v] == old_sorted[v - 1]);
                    let s0 = old_sorted[p as int]@;
                    let sv = old_sorted[v - 1]@;
                    crate::text::lemma_lex_order(x@, s0, x@);
                    crate::text::lemma_lex_order(sv, x@, s0);
                    if v - 1 > p {
                        assert(!crate::text::lex_lt(sv, s0));
                    }
                } else if u < p && v > p {
                    assert(sorted@[u] == old_sorted[u]);
                    assert(sorted@[v] == old_sorted[v - 1]);
                } else if u > p {
                    assert(sorted@[u] == old_sorted[u - 1]);
                    assert(sorted@[v] == old_sorted[v - 1]);
                } else {
                    assert(sorted@[u] == old_sorted[u]);
                    assert(sorted@[v] == old_sorted[v]);
                }
            }
            assert forall|u: int| 0 <= u < j + 1 implies 0 <= #[trigger] idx[u] < j + 1 && sorted@[u]@
                == pv[idx[u]] by {
                if u > p {
                    assert(idx[u] == old_idx[u - 1]);
                    assert(sorted@[u] == old_sorted[u - 1]);
                } else if u < p {
                    assert(idx[u] == old_idx[u]);
                    assert(sorted@[u] == old_sorted[u]);
                }
            }
            assert forall|u: int, v: int| 0 <= u < v < j + 1 implies #[trigger] idx[u] != #[trigger] idx[v] by {
                if u > p {
                    assert(idx[u] == old_idx[u - 1]);
                } else if u < p {
                    assert(idx[u] == old_idx[u]);
                }
                if v > p {
                    assert(idx[v] == old_idx[v - 1]);
                } else if v < p {
                    assert(idx[v] == old_idx[v]);
                }
            }
        }
        j = j + 1;
    }
    let mut out: Vec<String> = Vec::new();
    let mut q: usize = 0;
    while q < sorted.len()
        invariant
            q <= sorted@.len(),
            out@.len() == q,
            forall|i: int| 0 <= i < q ==> (#[trigger] out@[i])@ == path_join(dir@, sorted@[i]@),
        decreases sorted.len() - q,
    {
        let name = string_from_chars(&sorted[q]);
        out.push(join_path(dir, name.as_str()));
        q = q + 1;
    }
    proof {
        let sv = rows(sorted@);
        assert(crate::order::reorders(sv, yaml_names(str_views(names@)), idx));
        assert forall|a: int, b: int|
            0 <= a < b < sv.len() implies !crate::text::lex_lt(#[trigger] sv[b], #[trigger] sv[a]) by {
            assert(sv[a] == sorted@[a]@);
            assert(sv[b] == sorted@[b]@);
        }
        assert forall|i: int| 0 <= i < out@.len() implies (#[trigger] out@[i])@ == path_join(dir@, sv[i]) by {}
    }
    out
}

} // verus!
