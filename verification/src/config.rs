//! Project configuration (`pbkit.toml`): a small TOML subset with `[fmt]` and
//! `[lint]` sections.
use vstd::prelude::*;

use crate::lint::LintOptions;
use crate::proto_fmt::FormatOptions;
use crate::proto_sort::SortKey;
use crate::text::{chars_of, lines, slice_of, split_lines, trim, trim_bounds};

verus! {

/// The whole configuration.
#[derive(Debug, Clone, Copy, PartialEq, Eq)]
pub struct ProjectConfig {
    pub fmt: FmtConfig,
    pub lint: LintConfig,
}

/// The `[fmt]` section.
#[derive(Debug, Clone, Copy, PartialEq, Eq)]
pub struct FmtConfig {
    pub sort: Option<bool>,
    pub import_sort: Option<bool>,
    pub declaration_sort: Option<bool>,
    pub field_sort: Option<SortKey>,
}

/// The `[lint]` section.
#[derive(Debug, Clone, Copy, PartialEq, Eq)]
pub struct LintConfig {
    pub sort: Option<bool>,
}

/// Why a configuration text was rejected; each carries its 1-based line number.
#[derive(Debug, Clone, Copy, PartialEq, Eq)]
pub enum ConfigError {
    /// A line starting with `[` that does not end with `]`.
    UnterminatedSection(usize),
    /// A line that is neither a section header nor `key = value`.
    ExpectedKeyValue(usize),
    /// A boolean setting whose value is not `true` or `false`.
    ExpectedBool(usize),
    /// `field_sort` whose value is not `number` or `name` (quoted or not).
    ExpectedSortKey(usize),
}

/// The configuration with nothing set.
pub open spec fn empty_config() -> ProjectConfig {
    ProjectConfig {
        fmt: FmtConfig { sort: None, import_sort: None, declaration_sort: None, field_sort: None },
        lint: LintConfig { sort: None },
    }
}

impl Default for ProjectConfig {
    /// Nothing set.
    fn default() -> (r: Self)
        ensures
            r == empty_config(),
    {
        ProjectConfig { fmt: FmtConfig::default(), lint: LintConfig::default() }
    }
}

impl Default for FmtConfig {
    /// Nothing set.
    fn default() -> (r: Self)
        ensures
            r == empty_config().fmt,
    {
        FmtConfig { sort: None, import_sort: None, declaration_sort: None, field_sort: None }
    }
}

impl Default for LintConfig {
    /// Nothing set.
    fn default() -> (r: Self)
        ensures
            r == empty_config().lint,
    {
        LintConfig { sort: None }
    }
}

impl ProjectConfig {
    /// Format options: the defaults with declaration sorting on, then `[fmt].sort` for all three kinds of sorting,
    /// then `import_sort`, `declaration_sort` and `field_sort`, then the field key
    /// override; `without_sort` turns every kind of sorting off.
    pub fn format_options(&self, without_sort: bool, field_key_override: Option<SortKey>) -> (r:
        FormatOptions)
        ensures
            r.sort_imports == (!without_sort && match self.fmt.import_sort {
                Some(b) => b,
                None => match self.fmt.sort {
                    Some(b) => b,
                    None => true,
                },
            }),
            r.sort_fields == (!without_sort && match self.fmt.sort {
                Some(b) => b,
                None => true,
            }),
            r.sort_declarations == (!without_sort && match self.fmt.declaration_sort {
                Some(b) => b,
                None => match self.fmt.sort {
                    Some(b) => b,
                    None => true,
                },
            }),
            r.field_key == match field_key_override {
                Some(k) => k,
                None => match self.fmt.field_sort {
                    Some(k) => k,
                    None => SortKey::Number,
                },
            },
    {
        let mut options = FormatOptions::default();
        options.sort_declarations = true;
        if let Some(sort) = self.fmt.sort {
            options.sort_imports = sort;
            options.sort_fields = sort;
            options.sort_declarations = sort;
        }
        if let Some(import_sort) = self.fmt.import_sort {
            options.sort_imports = import_sort;
        }
        if let Some(declaration_sort) = self.fmt.declaration_sort {
            options.sort_declarations = declaration_sort;
        }
        if let Some(field_key) = self.fmt.field_sort {
            options.field_key = field_key;
        }
        if let Some(field_key) = field_key_override {
            options.field_key = field_key;
        }
        if without_sort {
            options.sort_imports = false;
            options.sort_fields = false;
            options.sort_declarations = false;
        }
        options
    }

    /// Lint options: the format options, where `[lint].sort` decides all three kinds
    /// of sorting when set, and `without_sort` turns them all off.
    pub fn lint_options(&self, without_sort: bool) -> (r: LintOptions)
        ensures
            ({
                let f = self.format_options_spec();
                let o = r.format_options;
                &&& o.field_key == f.field_key
                &&& o.sort_imports == (!without_sort && match self.lint.sort {
                    Some(b) => b,
                    None => f.sort_imports,
                })
                &&& o.sort_fields == (!without_sort && match self.lint.sort {
                    Some(b) => b,
                    None => f.sort_fields,
                })
                &&& o.sort_declarations == (!without_sort && match self.lint.sort {
                    Some(b) => b,
                    None => f.sort_declarations,
                })
            }),
    {
        let mut format_options = self.format_options(false, None);
        if let Some(sort) = self.lint.sort {
            format_options.sort_imports = sort;
            format_options.sort_fields = sort;
            format_options.sort_declarations = sort;
        }
        if without_sort {
            format_options.sort_imports = false;
            format_options.sort_fields = false;
            format_options.sort_declarations = false;
        }
        LintOptions { format_options }
    }

    /// `format_options(false, None)`.
    pub open spec fn format_options_spec(&self) -> FormatOptions {
        FormatOptions {
            sort_imports: match self.fmt.import_sort {
                Some(b) => b,
                None => match self.fmt.sort {
                    Some(b) => b,
                    None => true,
                },
            },
            sort_fields: match self.fmt.sort {
                Some(b) => b,
                None => true,
            },
            sort_declarations: match self.fmt.declaration_sort {
                Some(b) => b,
                None => match self.fmt.sort {
                    Some(b) => b,
                    None => true,
                },
            },
            field_key: match self.fmt.field_sort {
                Some(k) => k,
                None => SortKey::Number,
            },
        }
    }
}

// ---------------------------------------------------------------------------
// Parsing
// ---------------------------------------------------------------------------
/// Where the comment of a line starts: the first `#` outside a quoted string
/// (quotes are `"` or `'`, closed by the same character), or the line's length.
pub open spec fn comment_start(s: Seq<char>, i: int, quote: Option<char>) -> int
    decreases s.len() - i,
{
    if i < 0 || i >= s.len() {
        s.len() as int
    } else {
        let c = s[i];
        if (c == '"' || c == '\'') && quote == Some(c) {
            comment_start(s, i + 1, None)
        } else if (c == '"' || c == '\'') && quote is None {
            comment_start(s, i + 1, Some(c))
        } else if c == '#' && quote is None {
            i
        } else {
            comment_start(s, i + 1, quote)
        }
    }
}

/// A line without its comment.
pub open spec fn strip_comment(s: Seq<char>) -> Seq<char> {
    s.take(comment_start(s, 0, None))
}

/// `"v"` or `'v'` without its quotes; other text unchanged.
pub open spec fn unquote(s: Seq<char>) -> Seq<char> {
    if s.len() >= 2 && s[0] == '"' && s.last() == '"' {
        s.subrange(1, s.len() - 1)
    } else if s.len() >= 2 && s[0] == '\'' && s.last() == '\'' {
        s.subrange(1, s.len() - 1)
    } else {
        s
    }
}

/// Index of the first `=` in `s` (or `s.len()`).
pub open spec fn equals_at(s: Seq<char>, i: int) -> int
    decreases s.len() - i,
{
    if i < 0 || i >= s.len() || s[i] == '=' {
        i
    } else {
        equals_at(s, i + 1)
    }
}

pub open spec fn bool_setting(value: Seq<char>, line: nat) -> Result<bool, ConfigError> {
    if value == "true"@ {
        Ok(true)
    } else if value == "false"@ {
        Ok(false)
    } else {
        Err(ConfigError::ExpectedBool(line as usize))
    }
}

pub open spec fn sort_key_setting(value: Seq<char>, line: nat) -> Result<SortKey, ConfigError> {
    if unquote(value) == "number"@ {
        Ok(SortKey::Number)
    } else if unquote(value) == "name"@ {
        Ok(SortKey::Name)
    } else {
        Err(ConfigError::ExpectedSortKey(line as usize))
    }
}

/// The effect of setting `key = value` in section `section`; unknown settings are ignored.
pub open spec fn apply_setting(
    c: ProjectConfig,
    section: Seq<char>,
    key: Seq<char>,
    value: Seq<char>,
    line: nat,
) -> Result<ProjectConfig, ConfigError> {
    if section == "fmt"@ && key == "sort"@ {
        match bool_setting(value, line) {
            Ok(b) => Ok(ProjectConfig { fmt: FmtConfig { sort: Some(b), ..c.fmt }, ..c }),
            Err(e) => Err(e),
        }
    } else if section == "fmt"@ && key == "import_sort"@ {
        match bool_setting(value, line) {
            Ok(b) => Ok(ProjectConfig { fmt: FmtConfig { import_sort: Some(b), ..c.fmt }, ..c }),
            Err(e) => Err(e),
        }
    } else if section == "fmt"@ && key == "declaration_sort"@ {
        match bool_setting(value, line) {
            Ok(b) => Ok(
                ProjectConfig { fmt: FmtConfig { declaration_sort: Some(b), ..c.fmt }, ..c },
            ),
            Err(e) => Err(e),
        }
    } else if section == "fmt"@ && key == "field_sort"@ {
        match sort_key_setting(value, line) {
            Ok(k) => Ok(ProjectConfig { fmt: FmtConfig { field_sort: Some(k), ..c.fmt }, ..c }),
            Err(e) => Err(e),
        }
    } else if section == "lint"@ && key == "sort"@ {
        match bool_setting(value, line) {
            Ok(b) => Ok(ProjectConfig { lint: LintConfig { sort: Some(b) }, ..c }),
            Err(e) => Err(e),
        }
    } else {
        Ok(c)
    }
}

/// The configuration and current section after one more line (numbered `line`).
pub open spec fn config_line(
    c: ProjectConfig,
    section: Seq<char>,
    raw: Seq<char>,
    line: nat,
) -> Result<(ProjectConfig, Seq<char>), ConfigError> {
    let l = trim(strip_comment(raw));
    if l.len() == 0 {
        Ok((c, section))
    } else if l[0] == '[' {
        if l.last() != ']' {
            Err(ConfigError::UnterminatedSection(line as usize))
        } else {
            Ok((c, trim(l.subrange(1, l.len() - 1))))
        }
    } else {
        let e = equals_at(l, 0);
        if e >= l.len() {
            Err(ConfigError::ExpectedKeyValue(line as usize))
        } else {
            match apply_setting(
                c,
                section,
                trim(l.take(e)),
                trim(l.skip(e + 1)),
                line,
            ) {
                Ok(c2) => Ok((c2, section)),
                Err(err) => Err(err),
            }
        }
    }
}

/// The configuration after the first `n` lines.
pub open spec fn config_after(ls: Seq<Seq<char>>, n: int) -> Result<
    (ProjectConfig, Seq<char>),
    ConfigError,
>
    decreases n,
{
    if n <= 0 {
        Ok((empty_config(), seq![]))
    } else {
        match config_after(ls, n - 1) {
            Ok((c, section)) => config_line(c, section, ls[n - 1], n as nat),
            Err(e) => Err(e),
        }
    }
}

/// The configuration that `source` describes.
pub open spec fn parsed_config(source: Seq<char>) -> Result<ProjectConfig, ConfigError> {
    match config_after(lines(source), lines(source).len() as int) {
        Ok((c, _)) => Ok(c),
        Err(e) => Err(e),
    }
}

proof fn lemma_comment_start_bounds(s: Seq<char>, i: int, quote: Option<char>)
    requires
        0 <= i <= s.len(),
    ensures
        i <= comment_start(s, i, quote) <= s.len(),
    decreases s.len() - i,
{
    if i < s.len() {
        let c = s[i];
        if (c == '"' || c == '\'') && quote == Some(c) {
            lemma_comment_start_bounds(s, i + 1, None);
        } else if (c == '"' || c == '\'') && quote is None {
            lemma_comment_start_bounds(s, i + 1, Some(c));
        } else if c == '#' && quote is None {
        } else {
            lemma_comment_start_bounds(s, i + 1, quote);
        }
    }
}

proof fn lemma_config_error_stays(ls: Seq<Seq<char>>, k: int, m: int)
    requires
        1 <= k <= m,
        config_after(ls, k) is Err,
    ensures
        config_after(ls, m) == config_after(ls, k),
    decreases m - k,
{
    if m > k {
        lemma_config_error_stays(ls, k, m - 1);
    }
}

fn find_comment(s: &Vec<char>) -> (r: usize)
    ensures
        r == comment_start(s@, 0, None),
        r <= s.len(),
{
    let mut quote: Option<char> = None;
    let mut i: usize = 0;
    while i < s.len()
        invariant
            i <= s.len(),
            comment_start(s@, 0, None) == comment_start(s@, i as int, quote),
        decreases s.len() - i,
    {
        let c = s[i];
        if (c == '"' || c == '\'') && quote == Some(c) {
            quote = None;
        } else if (c == '"' || c == '\'') && quote.is_none() {
            quote = Some(c);
        } else if c == '#' && quote.is_none() {
            return i;
        }
        i += 1;
    }
    i
}

fn find_equals(s: &Vec<char>, a: usize, b: usize) -> (r: usize)
    requires
        a <= b <= s.len(),
    ensures
        a <= r <= b,
        r - a == equals_at(s@.subrange(a as int, b as int), 0),
{
    let ghost t = s@.subrange(a as int, b as int);
    let mut i = a;
    while i < b && s[i] != '='
        invariant
            a <= i <= b <= s.len(),
            t == s@.subrange(a as int, b as int),
            equals_at(t, 0) == equals_at(t, i - a),
        decreases b - i,
    {
        assert(t[i - a] == s@[i as int]);
        i += 1;
    }
    if i < b {
        assert(t[i - a] == s@[i as int]);
    }
    i
}

fn parse_bool(s: &Vec<char>, a: usize, b: usize, line: usize) -> (r: Result<bool, ConfigError>)
    requires
        a <= b <= s.len(),
    ensures
        r == bool_setting(s@.subrange(a as int, b as int), line as nat),
{
    let v = slice_of(s, a, b);
    if crate::text::is(&v, "true") {
        Ok(true)
    } else if crate::text::is(&v, "false") {
        Ok(false)
    } else {
        Err(ConfigError::ExpectedBool(line))
    }
}

fn parse_sort_key(s: &Vec<char>, a: usize, b: usize, line: usize) -> (r: Result<
    SortKey,
    ConfigError,
>)
    requires
        a <= b <= s.len(),
    ensures
        r == sort_key_setting(s@.subrange(a as int, b as int), line as nat),
{
    let v = slice_of(s, a, b);
    let n = v.len();
    let inner = if n >= 2 && v[0] == '"' && v[n - 1] == '"' {
        slice_of(&v, 1, n - 1)
    } else if n >= 2 && v[0] == '\'' && v[n - 1] == '\'' {
        slice_of(&v, 1, n - 1)
    } else {
        v
    };
    if crate::text::is(&inner, "number") {
        Ok(SortKey::Number)
    } else if crate::text::is(&inner, "name") {
        Ok(SortKey::Name)
    } else {
        Err(ConfigError::ExpectedSortKey(line))
    }
}

fn apply(
    c: ProjectConfig,
    section: &Vec<char>,
    s: &Vec<char>,
    key: (usize, usize),
    value: (usize, usize),
    line: usize,
) -> (r: Result<ProjectConfig, ConfigError>)
    requires
        key.0 <= key.1 <= s.len(),
        value.0 <= value.1 <= s.len(),
    ensures
        r == apply_setting(
            c,
            section@,
            s@.subrange(key.0 as int, key.1 as int),
            s@.subrange(value.0 as int, value.1 as int),
            line as nat,
        ),
{
    let k = slice_of(s, key.0, key.1);
    let is_fmt = crate::text::is(section, "fmt");
    let is_lint = crate::text::is(section, "lint");
    let mut c = c;
    if is_fmt && crate::text::is(&k, "sort") {
        let b = parse_bool(s, value.0, value.1, line)?;
        c.fmt.sort = Some(b);
    } else if is_fmt && crate::text::is(&k, "import_sort") {
        let b = parse_bool(s, value.0, value.1, line)?;
        c.fmt.import_sort = Some(b);
    } else if is_fmt && crate::text::is(&k, "declaration_sort") {
        let b = parse_bool(s, value.0, value.1, line)?;
        c.fmt.declaration_sort = Some(b);
    } else if is_fmt && crate::text::is(&k, "field_sort") {
        let key = parse_sort_key(s, value.0, value.1, line)?;
        c.fmt.field_sort = Some(key);
    } else if is_lint && crate::text::is(&k, "sort") {
        let b = parse_bool(s, value.0, value.1, line)?;
        c.lint.sort = Some(b);
    }
    Ok(c)
}

/// Parses the configuration text. Later settings override earlier ones; unknown
/// sections and keys are ignored; `#` starts a comment outside quotes.
pub fn parse_config(source: &str) -> (r: Result<ProjectConfig, ConfigError>)
    ensures
        r == parsed_config(source@),
{
    let text = chars_of(source);
    let ls = split_lines(&text);
    let ghost spec_lines = lines(source@);
    let mut config = ProjectConfig::default();
    let mut section: Vec<char> = Vec::new();
    let mut n: usize = 0;
    assert(config == empty_config());
    assert(section@ =~= Seq::<char>::empty());
    while n < ls.len()
        invariant
            n <= ls.len(),
            spec_lines == lines(source@),
            ls@.len() == spec_lines.len(),
            forall|k: int| 0 <= k < ls@.len() ==> #[trigger] ls@[k]@ == spec_lines[k],
            config_after(spec_lines, n as int) == Ok::<(ProjectConfig, Seq<char>), ConfigError>(
                (config, section@),
            ),
        decreases ls.len() - n,
    {
        let raw = &ls[n];
        let line_number = n + 1;
        let cut = find_comment(raw);
        let (a, b) = trim_bounds(raw, 0, cut);
        assert(raw@.subrange(0, cut as int) == strip_comment(raw@));
        let ghost l = raw@.subrange(a as int, b as int);
        assert(raw@ == spec_lines[n as int]);
        assert(l == trim(strip_comment(spec_lines[n as int])));
        if a < b {
            assert(l[0] == raw@[a as int]);
        }
        if a == b {
            n += 1;
            continue;
        }
        if raw[a] == '[' {
            if raw[b - 1] != ']' {
                proof {
                    assert(l.last() == raw@[b - 1]);
                    assert(l.len() > 0 && l[0] == '[' && l.last() != ']');
                    assert(config_line(config, section@, spec_lines[n as int], (n + 1) as nat)
                        == Err::<(ProjectConfig, Seq<char>), ConfigError>(
                        ConfigError::UnterminatedSection(line_number),
                    ));
                    assert(config_after(spec_lines, n as int + 1) == config_line(
                        config,
                        section@,
                        spec_lines[n as int],
                        (n + 1) as nat,
                    ));
                    lemma_config_error_stays(spec_lines, n as int + 1, spec_lines.len() as int);
                }
                return Err(ConfigError::UnterminatedSection(line_number));
            }
            let (sa, sb) = trim_bounds(raw, a + 1, b - 1);
            assert(raw@.subrange(a + 1, b - 1) =~= l.subrange(1, l.len() - 1));
            section = slice_of(raw, sa, sb);
            n += 1;
            continue;
        }
        let e = find_equals(raw, a, b);
        if e >= b {
            proof {
                lemma_config_error_stays(spec_lines, n as int + 1, spec_lines.len() as int);
            }
            return Err(ConfigError::ExpectedKeyValue(line_number));
        }
        let (ka, kb) = trim_bounds(raw, a, e);
        let (va, vb) = trim_bounds(raw, e + 1, b);
        assert(raw@.subrange(a as int, e as int) =~= l.take(e - a));
        assert(raw@.subrange(e + 1, b as int) =~= l.skip(e - a + 1));
        match apply(config, &section, raw, (ka, kb), (va, vb), line_number) {
            Ok(c2) => {
                config = c2;
            },
            Err(err) => {
                proof {
                    lemma_config_error_stays(spec_lines, n as int + 1, spec_lines.len() as int);
                }
                return Err(err);
            },
        }
        n += 1;
    }
    Ok(config)
}

} // verus!
