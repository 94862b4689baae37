//! The app's settings and the small `key=value` file they are kept in.

use vstd::prelude::*;
use crate::text::{is_space, last_of, lemma_last_of, trim, trim_chars, chars_of, string_of, same_chars, same_text};

verus! {

#[derive(Clone, Copy, PartialEq, Eq, Debug, Structural)]
pub enum Theme {
    Auto,
    Light,
    Dark,
}

impl Default for Theme {
    fn default() -> (t: Theme)
        ensures
            t == Theme::Auto,
    {
        Theme::Auto
    }
}

/// The theme a UI code stands for: 1 is light, 2 dark, anything else auto.
pub open spec fn theme_of_code(code: i32) -> Theme {
    if code == 1 {
        Theme::Light
    } else if code == 2 {
        Theme::Dark
    } else {
        Theme::Auto
    }
}

/// The UI code of a theme.
pub open spec fn code_of_theme(t: Theme) -> i32 {
    match t {
        Theme::Auto => 0,
        Theme::Light => 1,
        Theme::Dark => 2,
    }
}

/// How a theme is written in the settings file.
pub open spec fn theme_name(t: Theme) -> Seq<char> {
    match t {
        Theme::Auto => "auto"@,
        Theme::Light => "light"@,
        Theme::Dark => "dark"@,
    }
}

/// The theme a settings-file value names; anything unknown is auto.
pub open spec fn theme_named(v: Seq<char>) -> Theme {
    if v == "light"@ {
        Theme::Light
    } else if v == "dark"@ {
        Theme::Dark
    } else {
        Theme::Auto
    }
}

fn theme_from_chars(value: &[char]) -> (t: Theme)
    ensures
        t == theme_named(value@),
{
    let light = chars_of("light");
    let dark = chars_of("dark");
    if same_chars(value, light.as_slice()) {
        Theme::Light
    } else if same_chars(value, dark.as_slice()) {
        Theme::Dark
    } else {
        Theme::Auto
    }
}

impl Theme {
    pub fn from_code(code: i32) -> (t: Self)
        ensures
            t == theme_of_code(code),
    {
        match code {
            1 => Theme::Light,
            2 => Theme::Dark,
            _ => Theme::Auto,
        }
    }

    pub fn code(self) -> (c: i32)
        ensures
            c == code_of_theme(self),
    {
        match self {
            Theme::Auto => 0,
            Theme::Light => 1,
            Theme::Dark => 2,
        }
    }

    pub fn as_str(self) -> (s: &'static str)
        ensures
            s@ == theme_name(self),
    {
        match self {
            Theme::Auto => "auto",
            Theme::Light => "light",
            Theme::Dark => "dark",
        }
    }

    pub fn parse(value: &str) -> (t: Self)
        ensures
            t == theme_named(value@),
    {
        let cs = chars_of(value);
        theme_from_chars(cs.as_slice())
    }
}

/// The languages the app ships translations for. `code` must match the
/// directory name under `translations/`, and an empty code means "follow the
/// system", which is what Slint does when no translation is selected.
pub struct Language {
    pub code: &'static str,
    pub name: &'static str,
}

/// The codes of the shipped languages; the first, empty, follows the system.
pub const LANGUAGE_CODES: [&'static str; 3] = ["", "en", "hr"];

/// The names the language picker shows, in the order of `LANGUAGE_CODES`.
pub const LANGUAGE_NAMES: [&'static str; 3] = ["System default", "English", "Hrvatski"];

/// The shipped languages, in picker order.
pub fn languages() -> (out: Vec<Language>)
    ensures
        out@.len() == 3,
        forall|i: int|
            0 <= i < 3 ==> (#[trigger] out@[i]).code == LANGUAGE_CODES[i] && out@[i].name
                == LANGUAGE_NAMES[i],
{
    let mut out: Vec<Language> = Vec::new();
    let mut k: usize = 0;
    while k < 3
        invariant
            k <= 3,
            out@.len() == k,
            forall|i: int|
                0 <= i < k ==> (#[trigger] out@[i]).code == LANGUAGE_CODES[i] && out@[i].name
                    == LANGUAGE_NAMES[i],
        decreases 3 - k,
    {
        out.push(Language { code: LANGUAGE_CODES[k], name: LANGUAGE_NAMES[k] });
        k = k + 1;
    }
    out
}

#[derive(Clone, Debug, PartialEq, Eq)]
pub struct Settings {
    pub theme: Theme,
    /// Empty means follow the system locale.
    pub language: String,
}

pub struct SettingsModel {
    pub theme: Theme,
    pub language: Seq<char>,
}

impl View for Settings {
    type V = SettingsModel;

    open spec fn view(&self) -> SettingsModel {
        SettingsModel { theme: self.theme, language: self.language@ }
    }
}

/// Auto theme, system language.
pub open spec fn default_settings() -> SettingsModel {
    SettingsModel { theme: Theme::Auto, language: Seq::empty() }
}

impl Default for Settings {
    fn default() -> (s: Self)
        ensures
            s@ == default_settings(),
    {
        Settings { theme: Theme::Auto, language: String::new() }
    }
}

// ---------------------------------------------------------------------------
// The settings file
// ---------------------------------------------------------------------------

/// Index of the first `c` in `s`, or -1.
pub open spec fn first_of(s: Seq<char>, c: char) -> int
    decreases s.len(),
{
    if s.len() == 0 {
        -1
    } else if s[0] == c {
        0
    } else if first_of(s.drop_first(), c) < 0 {
        -1
    } else {
        first_of(s.drop_first(), c) + 1
    }
}

/// The pieces of `text` between line feeds. The `\r` of a `\r\n` ending, and
/// the empty piece after a final line feed, fall away when lines are
/// trimmed and empty ones skipped, so reading these is reading the lines.
pub open spec fn split_lines(text: Seq<char>) -> Seq<Seq<char>>
    decreases text.len(),
{
    let i = last_of(text, '\n');
    if i < 0 || i >= text.len() {
        seq![text]
    } else {
        split_lines(text.take(i)).push(text.skip(i + 1))
    }
}

/// One line's effect: blank lines, `#` comments, lines without `=` and
/// unknown keys change nothing; `theme` and `language` set their setting to
/// the trimmed value after the first `=`.
pub open spec fn apply_line(s: SettingsModel, line: Seq<char>) -> SettingsModel {
    let l = trim(line);
    if l.len() == 0 || l[0] == '#' {
        s
    } else {
        let i = first_of(l, '=');
        if i < 0 {
            s
        } else {
            let key = trim(l.take(i));
            let value = trim(l.skip(i + 1));
            if key == "theme"@ {
                SettingsModel { theme: theme_named(value), language: s.language }
            } else if key == "language"@ {
                SettingsModel { theme: s.theme, language: value }
            } else {
                s
            }
        }
    }
}

/// The settings the lines give, read in order from the defaults.
pub open spec fn parse_lines(lines: Seq<Seq<char>>) -> SettingsModel
    decreases lines.len(),
{
    if lines.len() == 0 {
        default_settings()
    } else {
        apply_line(parse_lines(lines.drop_last()), lines.last())
    }
}

/// The settings a file's text gives.
pub open spec fn parsed(text: Seq<char>) -> SettingsModel {
    parse_lines(split_lines(text))
}

/// The text settings are saved as.
pub open spec fn serialised(s: SettingsModel) -> Seq<char> {
    "theme="@ + theme_name(s.theme) + "\nlanguage="@ + s.language + "\n"@
}

proof fn lemma_split_lines_push(s: Seq<char>, c: char)
    ensures
        split_lines(s).len() > 0,
        c == '\n' ==> split_lines(s.push(c)) == split_lines(s).push(Seq::empty()),
        c != '\n' ==> split_lines(s.push(c)) == split_lines(s).drop_last().push(
            split_lines(s).last().push(c),
        ),
    decreases s.len(),
{
    let t = s.push(c);
    assert(t.drop_last() =~= s);
    lemma_last_of(s, '\n');
    let i = last_of(s, '\n');
    if c == '\n' {
        assert(t.take(s.len() as int) =~= s);
        assert(t.skip(s.len() as int + 1) =~= Seq::<char>::empty());
    } else {
        assert(last_of(t, '\n') == i);
        if i >= 0 {
            assert(t.take(i) =~= s.take(i));
            assert(t.skip(i + 1) =~= s.skip(i + 1).push(c));
            assert(split_lines(s) == split_lines(s.take(i)).push(s.skip(i + 1)));
            assert(split_lines(s).drop_last() =~= split_lines(s.take(i)));
        }
    }
    if s.len() > 0 {
    }
}

/// Whether `c` occurs in `s`.
pub open spec fn has_char(s: Seq<char>, c: char) -> bool {
    exists|j: int| 0 <= j < s.len() && s[j] == c
}

impl Settings {
    fn apply_line(&mut self, line: &[char])
        ensures
            final(self)@ == apply_line(old(self)@, line@),
    {
        let l = trim_chars(line);
        if l.len() == 0 || l[0] == '#' {
            return;
        }
        let n = l.len();
        let mut i: usize = 0;
        assert(l@.skip(0) =~= l@);
        while i < n && l[i] != '='
            invariant
                i <= n == l@.len(),
                first_of(l@, '=') == (if first_of(l@.skip(i as int), '=') < 0 {
                    -1
                } else {
                    first_of(l@.skip(i as int), '=') + i
                }),
            decreases n - i,
        {
            assert(l@.skip(i as int).drop_first() =~= l@.skip(i + 1));
            i = i + 1;
        }
        if i == n {
            assert(l@.skip(i as int).len() == 0);
            return;
        }
        assert(l@.skip(i as int)[0] == '=');
        let key_raw = vstd::slice::slice_subrange(l.as_slice(), 0, i);
        let value_raw = vstd::slice::slice_subrange(l.as_slice(), i + 1, n);
        assert(key_raw@ =~= l@.take(i as int));
        assert(value_raw@ =~= l@.skip(i + 1));
        let key = trim_chars(key_raw);
        let value = trim_chars(value_raw);
        let theme_key = chars_of("theme");
        let language_key = chars_of("language");
        if same_chars(key.as_slice(), theme_key.as_slice()) {
            self.theme = theme_from_chars(value.as_slice());
        } else if same_chars(key.as_slice(), language_key.as_slice()) {
            self.language = string_of(value.as_slice());
        }
    }

    /// Reads settings from a file's text. Anything it cannot make sense of
    /// leaves the defaults in place rather than failing.
    pub fn parse(text: &str) -> (s: Self)
        ensures
            s@ == parsed(text@),
    {
        let cs = chars_of(text);
        let mut settings = Settings::default();
        let mut line: Vec<char> = Vec::new();
        assert(split_lines(cs@.take(0)) =~= seq![Seq::<char>::empty()]) by {
            assert(cs@.take(0) =~= Seq::<char>::empty());
        }
        assert(seq![Seq::<char>::empty()].drop_last() =~= Seq::<Seq<char>>::empty());
        for k in 0..cs.len()
            invariant
                settings@ == parse_lines(split_lines(cs@.take(k as int)).drop_last()),
                line@ == split_lines(cs@.take(k as int)).last(),
                split_lines(cs@.take(k as int)).len() > 0,
        {
            let ghost pre = cs@.take(k as int);
            proof {
                lemma_split_lines_push(pre, cs@[k as int]);
                assert(cs@.take(k + 1) =~= pre.push(cs@[k as int]));
                lemma_split_lines_push(cs@.take(k + 1), 'a');
            }
            if cs[k] == '\n' {
                self::Settings::apply_line(&mut settings, line.as_slice());
                line = Vec::new();
                proof {
                    let ls = split_lines(pre);
                    assert(ls.push(Seq::empty()).drop_last() =~= ls);
                    assert(ls =~= ls.drop_last().push(ls.last()));
                }
            } else {
                line.push(cs[k]);
                proof {
                    let ls = split_lines(pre);
                    assert(ls.drop_last().push(ls.last().push(cs@[k as int])).drop_last() =~= ls.drop_last());
                }
            }
        }
        assert(cs@.take(cs@.len() as int) =~= cs@);
        self::Settings::apply_line(&mut settings, line.as_slice());
        proof {
            let ls = split_lines(cs@);
            assert(ls =~= ls.drop_last().push(ls.last()));
        }
        settings
    }

    /// The text the settings are saved as: one `key=value` line each.
    pub fn serialise(&self) -> (out: String)
        ensures
            out@ == serialised(self@),
    {
        let mut cs = chars_of("theme=");
        let mut name = chars_of(self.theme.as_str());
        cs.append(&mut name);
        let mut key = chars_of("\nlanguage=");
        cs.append(&mut key);
        let mut value = chars_of(self.language.as_str());
        cs.append(&mut value);
        let mut end = chars_of("\n");
        cs.append(&mut end);
        string_of(cs.as_slice())
    }

    pub fn language_index(&self) -> (i: i32)
        ensures
            i == language_index_of(self.language@),
    {
        let mut k: usize = 0;
        while k < 3
            invariant
                k <= 3,
                forall|j: int| 0 <= j < k ==> (#[trigger] LANGUAGE_CODES[j])@ != self.language@,
            decreases 3 - k,
        {
            if same_text(LANGUAGE_CODES[k], self.language.as_str()) {
                return k as i32;
            }
            k = k + 1;
        }
        0
    }

    pub fn language_from_index(index: i32) -> (code: String)
        ensures
            code@ == language_at(index),
    {
        let k: usize = if index < 0 {
            0
        } else {
            index as usize
        };
        if k < 3 {
            LANGUAGE_CODES[k].to_owned()
        } else {
            String::new()
        }
    }
}

/// The position of `language` among the shipped codes, or 0 (the system
/// default) when it is not one of them.
pub open spec fn language_index_of(language: Seq<char>) -> i32 {
    if LANGUAGE_CODES[0]@ == language {
        0
    } else if LANGUAGE_CODES[1]@ == language {
        1
    } else if LANGUAGE_CODES[2]@ == language {
        2
    } else {
        0
    }
}

/// The code at a picker index: negative indices read as 0, and indices past
/// the list give the empty code.
pub open spec fn language_at(index: i32) -> Seq<char> {
    let k = if index < 0 {
        0
    } else {
        index as int
    };
    if k < 3 {
        LANGUAGE_CODES[k]@
    } else {
        Seq::empty()
    }
}


proof fn lemma_trim_fixed(s: Seq<char>)
    requires
        s.len() > 0 ==> !is_space(s[0]) && !is_space(s.last()),
    ensures
        trim(s) == s,
{
}

proof fn lemma_no_char_last_of(s: Seq<char>, c: char)
    requires
        !has_char(s, c),
    ensures
        last_of(s, c) == -1,
    decreases s.len(),
{
    if s.len() > 0 {
        assert(s[s.len() - 1] != c);
        assert(!has_char(s.drop_last(), c)) by {
            if has_char(s.drop_last(), c) {
                let j = choose|j: int| 0 <= j < s.drop_last().len() && s.drop_last()[j] == c;
                assert(s[j] == c);
            }
        }
        lemma_no_char_last_of(s.drop_last(), c);
    }
}

proof fn lemma_last_of_suffix(s: Seq<char>, t: Seq<char>, c: char)
    requires
        !has_char(t, c),
    ensures
        last_of(s + t, c) == last_of(s, c),
    decreases t.len(),
{
    if t.len() > 0 {
        assert(t[t.len() - 1] != c);
        assert((s + t).drop_last() =~= s + t.drop_last());
        assert(!has_char(t.drop_last(), c)) by {
            if has_char(t.drop_last(), c) {
                let j = choose|j: int| 0 <= j < t.drop_last().len() && t.drop_last()[j] == c;
                assert(t[j] == c);
            }
        }
        lemma_last_of_suffix(s, t.drop_last(), c);
    } else {
        assert(s + t =~= s);
    }
}

proof fn lemma_first_of_prefix(p: Seq<char>, q: Seq<char>, c: char)
    requires
        !has_char(p, c),
    ensures
        first_of(p + seq![c] + q, c) == p.len(),
    decreases p.len(),
{
    if p.len() > 0 {
        assert(p[0] != c);
        assert((p + seq![c] + q).drop_first() =~= p.drop_first() + seq![c] + q);
        assert(!has_char(p.drop_first(), c)) by {
            if has_char(p.drop_first(), c) {
                let j = choose|j: int| 0 <= j < p.drop_first().len() && p.drop_first()[j] == c;
                assert(p[j + 1] == c);
            }
        }
        lemma_first_of_prefix(p.drop_first(), q, c);
    }
}

/// Splitting text that ends in a line feed and then a line-feed-free piece.
proof fn lemma_split_lines_append(x: Seq<char>, y: Seq<char>)
    requires
        !has_char(y, '\n'),
    ensures
        split_lines(x.push('\n') + y) == split_lines(x).push(y),
{
    let t = x.push('\n') + y;
    lemma_last_of_suffix(x.push('\n'), y, '\n');
    assert(x.push('\n').drop_last() =~= x);
    assert(last_of(t, '\n') == x.len());
    assert(t.take(x.len() as int) =~= x);
    assert(t.skip(x.len() as int + 1) =~= y);
}

/// Saving settings and reading the file back gives the same settings, for a
/// language code with no surrounding whitespace and no line feed in it.
pub proof fn lemma_settings_round_trip(s: SettingsModel)
    requires
        trim(s.language) == s.language,
        !has_char(s.language, '\n'),
    ensures
        parsed(serialised(s)) == s,
{
    reveal_strlit("theme=");
    reveal_strlit("\nlanguage=");
    reveal_strlit("\n");
    reveal_strlit("auto");
    reveal_strlit("light");
    reveal_strlit("dark");
    reveal_strlit("theme");
    reveal_strlit("language");
    let name = theme_name(s.theme);
    let language = s.language;
    let l1 = "theme="@ + name;
    let l2 = "language="@ + language;
    reveal_strlit("language=");
    assert(!has_char(name, '\n')) by {
        if has_char(name, '\n') {
            let j = choose|j: int| 0 <= j < name.len() && name[j] == '\n';
        }
    }
    assert(!has_char(l1, '\n')) by {
        if has_char(l1, '\n') {
            let j = choose|j: int| 0 <= j < l1.len() && l1[j] == '\n';
            if j >= 6 {
                assert(name[j - 6] == '\n');
            }
        }
    }
    assert(!has_char(l2, '\n')) by {
        if has_char(l2, '\n') {
            let j = choose|j: int| 0 <= j < l2.len() && l2[j] == '\n';
            if j >= 9 {
                assert(language[j - 9] == '\n');
            }
        }
    }
    let text = serialised(s);
    assert(text =~= (l1.push('\n') + l2).push('\n'));
    // The lines.
    lemma_no_char_last_of(l1, '\n');
    assert(split_lines(l1) =~= seq![l1]);
    lemma_split_lines_append(l1, l2);
    lemma_split_lines_push(l1.push('\n') + l2, '\n');
    let lines = split_lines(text);
    assert(lines =~= seq![l1, l2, Seq::<char>::empty()]);
    // The theme line.
    lemma_trim_fixed(l1);
    assert(l1 =~= "theme"@ + seq!['='] + name);
    assert(!has_char("theme"@, '=')) by {
        if has_char("theme"@, '=') {
            let j = choose|j: int| 0 <= j < 5 && "theme"@[j] == '=';
        }
    }
    lemma_first_of_prefix("theme"@, name, '=');
    assert(l1.take(5) =~= "theme"@);
    assert(l1.skip(6) =~= name);
    lemma_trim_fixed("theme"@);
    lemma_trim_fixed(name);
    let after_theme = apply_line(default_settings(), l1);
    assert(after_theme.theme == s.theme);
    assert(after_theme.language == Seq::<char>::empty());
    // The language line.
    crate::text::lemma_trim_is_trimmed(language);
    assert(l2.last() != '\n');
    lemma_trim_fixed(l2);
    assert(l2 =~= "language"@ + seq!['='] + language);
    assert(!has_char("language"@, '=')) by {
        if has_char("language"@, '=') {
            let j = choose|j: int| 0 <= j < 8 && "language"@[j] == '=';
        }
    }
    lemma_first_of_prefix("language"@, language, '=');
    assert(l2.take(8) =~= "language"@);
    assert(l2.skip(9) =~= language);
    lemma_trim_fixed("language"@);
    assert("language"@ != "theme"@) by {
        assert("language"@.len() != "theme"@.len());
    }
    let after_language = apply_line(after_theme, l2);
    assert(after_language == s);
    // The empty piece after the last line feed.
    assert(trim(Seq::<char>::empty()) =~= Seq::<char>::empty());
    assert(lines.drop_last() =~= seq![l1, l2]);
    assert(lines.drop_last().drop_last() =~= seq![l1]);
    assert(lines.drop_last().drop_last().drop_last() =~= Seq::<Seq<char>>::empty());
    assert(seq![l1].drop_last() =~= Seq::<Seq<char>>::empty());
    assert(parse_lines(Seq::<Seq<char>>::empty()) == default_settings());
    assert(seq![l1].last() == l1);
    assert(parse_lines(seq![l1]) == after_theme);
    assert(seq![l1, l2].drop_last() =~= seq![l1]);
    assert(parse_lines(seq![l1, l2]) == after_language);
    assert(apply_line(after_language, Seq::<char>::empty()) == after_language);
    assert(parse_lines(lines) == s);
}

/// A theme survives the trip through its UI code, and through the name it
/// is saved under.
pub proof fn lemma_theme_round_trips(t: Theme)
    ensures
        theme_of_code(code_of_theme(t)) == t,
        theme_named(theme_name(t)) == t,
{
    reveal_strlit("auto");
    reveal_strlit("light");
    reveal_strlit("dark");
    assert("auto"@ != "light"@) by {
        assert("auto"@.len() != "light"@.len());
    }
    assert("auto"@ != "dark"@) by {
        assert("auto"@[0] != "dark"@[0]);
    }
    assert("light"@ != "dark"@) by {
        assert("light"@.len() != "dark"@.len());
    }
}

/// The picker index of a shipped language gives that language back, and the
/// language at a picker index has that index.
pub proof fn lemma_language_index_round_trips(k: int)
    requires
        0 <= k < 3,
    ensures
        language_at(language_index_of(LANGUAGE_CODES[k]@)) == LANGUAGE_CODES[k]@,
        language_index_of(language_at(k as i32)) == k,
{
    reveal_strlit("");
    reveal_strlit("en");
    reveal_strlit("hr");
    assert(LANGUAGE_CODES[0]@ != LANGUAGE_CODES[1]@) by {
        assert(LANGUAGE_CODES[0]@.len() != LANGUAGE_CODES[1]@.len());
    }
    assert(LANGUAGE_CODES[0]@ != LANGUAGE_CODES[2]@) by {
        assert(LANGUAGE_CODES[0]@.len() != LANGUAGE_CODES[2]@.len());
    }
    assert(LANGUAGE_CODES[1]@ != LANGUAGE_CODES[2]@) by {
        assert(LANGUAGE_CODES[1]@[0] != LANGUAGE_CODES[2]@[0]);
    }
}

} // verus!
