//! The text-level pieces of the Python transpiler: how names are mangled
//! into Python identifiers, how blocks are indented and delimited, and how
//! the core runtime modules are stitched into one prelude.

use vstd::prelude::*;

use crate::args::str_eq;
use crate::const_func::{append_chars, is_prefix, occurs_at, occurs_at_exec, replace_all, replace_chars};
use crate::text::{
    chars_of, int_string, int_text, is_white_space, is_white_space_char, string_from, string_of,
    trim_start,
};

verus! {

/// The delimiters written around a collection or an argument list.
#[derive(Debug, Clone, Copy, PartialEq, Eq)]
pub enum Enclosure {
    /// `()`
    Paren,
    /// `[]`
    Bracket,
    /// `{}`
    Brace,
    /// no delimiter: a space on either side
    Blank,
}

impl Enclosure {
    pub open spec fn spec_open(self) -> char {
        match self {
            Enclosure::Paren => '(',
            Enclosure::Bracket => '[',
            Enclosure::Brace => '{',
            Enclosure::Blank => ' ',
        }
    }

    pub open spec fn spec_close(self) -> char {
        match self {
            Enclosure::Paren => ')',
            Enclosure::Bracket => ']',
            Enclosure::Brace => '}',
            Enclosure::Blank => ' ',
        }
    }

    /// The opening delimiter.
    pub fn open(&self) -> (c: char)
        ensures
            c == self.spec_open(),
    {
        match self {
            Enclosure::Paren => '(',
            Enclosure::Bracket => '[',
            Enclosure::Brace => '{',
            Enclosure::Blank => ' ',
        }
    }

    /// The closing delimiter.
    pub fn close(&self) -> (c: char)
        ensures
            c == self.spec_close(),
    {
        match self {
            Enclosure::Paren => ')',
            Enclosure::Bracket => ']',
            Enclosure::Brace => '}',
            Enclosure::Blank => ' ',
        }
    }
}

/// What becomes of the value of the last line of a block.
#[derive(Debug)]
pub enum LastLineOperation {
    Discard,
    Return,
    /// stored into the temporary variable of this name
    StoreTmp(String),
}

impl LastLineOperation {
    pub fn is_return(&self) -> (r: bool)
        ensures
            r == (*self is Return),
    {
        match self {
            LastLineOperation::Return => true,
            _ => false,
        }
    }

    pub fn is_store_tmp(&self) -> (r: bool)
        ensures
            r == (*self is StoreTmp),
    {
        match self {
            LastLineOperation::StoreTmp(_) => true,
            _ => false,
        }
    }
}

/// `level` indentation steps of four spaces each.
pub open spec fn indentation(level: nat) -> Seq<char>
    decreases level,
{
    if level == 0 {
        Seq::empty()
    } else {
        indentation((level - 1) as nat) + seq![' ', ' ', ' ', ' ']
    }
}

/// Appends `level` indentation steps to `code`.
pub fn push_indent(code: &mut String, level: usize)
    ensures
        final(code)@ == old(code)@ + indentation(level as nat),
{
    let ghost start = code@;
    let mut i: usize = 0;
    while i < level
        invariant
            i <= level,
            code@ == start + indentation(i as nat),
        decreases level - i,
    {
        code.push(' ');
        code.push(' ');
        code.push(' ');
        code.push(' ');
        i = i + 1;
        assert(code@ =~= start + indentation(i as nat));
    }
}

/// The characters that cannot stand in a Python identifier and that the
/// transpiler spells out.
pub open spec fn is_non_symbolic(c: char) -> bool {
    ||| c == '\''
    ||| c == ' '
    ||| c == '+'
    ||| c == '-'
    ||| c == '*'
    ||| c == '/'
    ||| c == '%'
    ||| c == '!'
    ||| c == '$'
}

/// The text that stands for `c` in a Python identifier.
pub open spec fn symbolic_text(c: char) -> Seq<char> {
    if c == '\'' {
        "__single_quote__"@
    } else if c == ' ' {
        "__space__"@
    } else if c == '+' {
        "__plus__"@
    } else if c == '-' {
        "__minus__"@
    } else if c == '*' {
        "__star__"@
    } else if c == '/' {
        "__slash__"@
    } else if c == '%' {
        "__percent__"@
    } else if c == '!' {
        "__erg_proc__"@
    } else if c == '$' {
        "erg_shared__"@
    } else {
        seq![c]
    }
}

/// `name` with each character replaced by its `symbolic_text`.
pub open spec fn spec_replace_non_symbolic(name: Seq<char>) -> Seq<char>
    decreases name.len(),
{
    if name.len() == 0 {
        Seq::empty()
    } else {
        spec_replace_non_symbolic(name.drop_last()) + symbolic_text(name.last())
    }
}

fn symbolic_chars(c: char) -> (r: Vec<char>)
    ensures
        r@ == symbolic_text(c),
{
    if c == '\'' {
        chars_of("__single_quote__")
    } else if c == ' ' {
        chars_of("__space__")
    } else if c == '+' {
        chars_of("__plus__")
    } else if c == '-' {
        chars_of("__minus__")
    } else if c == '*' {
        chars_of("__star__")
    } else if c == '/' {
        chars_of("__slash__")
    } else if c == '%' {
        chars_of("__percent__")
    } else if c == '!' {
        chars_of("__erg_proc__")
    } else if c == '$' {
        chars_of("erg_shared__")
    } else {
        let mut v: Vec<char> = Vec::new();
        v.push(c);
        v
    }
}

/// Spells out the characters of `name` that a Python identifier cannot hold.
pub fn replace_non_symbolic(name: &str) -> (r: String)
    ensures
        r@ == spec_replace_non_symbolic(name@),
{
    let cs = chars_of(name);
    let mut out: Vec<char> = Vec::new();
    let mut i: usize = 0;
    while i < cs.len()
        invariant
            i <= cs@.len(),
            out@ == spec_replace_non_symbolic(cs@.subrange(0, i as int)),
        decreases cs.len() - i,
    {
        let part = symbolic_chars(cs[i]);
        append_chars(&mut out, &part);
        assert(cs@.subrange(0, i + 1).drop_last() =~= cs@.subrange(0, i as int));
        i = i + 1;
    }
    assert(cs@.subrange(0, cs@.len() as int) =~= cs@);
    string_of(&out)
}

proof fn lemma_symbolic_text_is_symbolic(c: char)
    ensures
        forall|j: int|
            0 <= j < symbolic_text(c).len() ==> !is_non_symbolic(#[trigger] symbolic_text(c)[j]),
{
    reveal_strlit("__single_quote__");
    reveal_strlit("__space__");
    reveal_strlit("__plus__");
    reveal_strlit("__minus__");
    reveal_strlit("__star__");
    reveal_strlit("__slash__");
    reveal_strlit("__percent__");
    reveal_strlit("__erg_proc__");
    reveal_strlit("erg_shared__");
}

/// A name that went through `replace_non_symbolic` holds none of the
/// characters that a Python identifier cannot hold.
pub proof fn law_replaced_name_is_symbolic(name: Seq<char>)
    ensures
        forall|j: int|
            0 <= j < spec_replace_non_symbolic(name).len() ==> !is_non_symbolic(
                #[trigger] spec_replace_non_symbolic(name)[j],
            ),
    decreases name.len(),
{
    if name.len() > 0 {
        law_replaced_name_is_symbolic(name.drop_last());
        lemma_symbolic_text_is_symbolic(name.last());
        let a = spec_replace_non_symbolic(name.drop_last());
        let b = symbolic_text(name.last());
        assert forall|j: int| 0 <= j < (a + b).len() implies !is_non_symbolic((a + b)[j]) by {
            if j < a.len() {
                assert((a + b)[j] == a[j]);
            } else {
                assert((a + b)[j] == b[j - a.len()]);
            }
        }
    }
}

/// `s` with every leading repetition of `p` removed, as
/// `str::trim_start_matches` gives it.
pub open spec fn trim_start_matches(s: Seq<char>, p: Seq<char>) -> Seq<char>
    decreases s.len(),
{
    if p.len() > 0 && is_prefix(p, s) {
        trim_start_matches(s.subrange(p.len() as int, s.len() as int), p)
    } else {
        s
    }
}

/// The Python identifier of a qualified Erg name: the module prefix goes,
/// `::` becomes `__` and `.` becomes `_`.
pub open spec fn spec_demangle(name: Seq<char>) -> Seq<char> {
    replace_all(
        replace_all(trim_start_matches(name, "::<module>"@), "::"@, "__"@),
        "."@,
        "_"@,
    )
}

fn trim_start_matches_chars(s: &Vec<char>, p: &Vec<char>) -> (r: Vec<char>)
    ensures
        r@ == trim_start_matches(s@, p@),
{
    let mut i: usize = 0;
    assert(s@.skip(0) =~= s@);
    while p.len() > 0 && occurs_at_exec(s, p, i)
        invariant
            i <= s@.len(),
            trim_start_matches(s@, p@) == trim_start_matches(s@.skip(i as int), p@),
        decreases s.len() - i,
    {
        let ghost rest = s@.skip(i as int);
        assert(rest.subrange(0, p@.len() as int) =~= s@.subrange(i as int, i + p@.len()));
        assert(rest.subrange(p@.len() as int, rest.len() as int) =~= s@.skip(i + p@.len()));
        i = i + p.len();
    }
    let ghost rest = s@.skip(i as int);
    if p.len() > 0 {
        assert(!is_prefix(p@, rest)) by {
            if is_prefix(p@, rest) {
                assert(s@.subrange(i as int, i + p@.len()) =~= rest.subrange(0, p@.len() as int));
            }
        }
    }
    let mut r: Vec<char> = Vec::new();
    let mut j: usize = i;
    while j < s.len()
        invariant
            i <= j <= s@.len(),
            r@ == s@.subrange(i as int, j as int),
        decreases s.len() - j,
    {
        r.push(s[j]);
        j = j + 1;
        assert(r@ =~= s@.subrange(i as int, j as int));
    }
    assert(r@ =~= rest);
    r
}

/// The Python identifier of the qualified name `name`.
pub fn demangle(name: &str) -> (r: String)
    ensures
        r@ == spec_demangle(name@),
{
    let cs = chars_of(name);
    let trimmed = trim_start_matches_chars(&cs, &chars_of("::<module>"));
    let joined = replace_chars(&trimmed, &chars_of("::"), &chars_of("__"));
    let flat = replace_chars(&joined, &chars_of("."), &chars_of("_"));
    string_of(&flat)
}

proof fn lemma_replace_single_removes(s: Seq<char>, c: char, to: Seq<char>)
    requires
        !to.contains(c),
    ensures
        !replace_all(s, seq![c], to).contains(c),
    decreases s.len(),
{
    let r = replace_all(s, seq![c], to);
    if s.len() == 0 {
        assert(!is_prefix(seq![c], s));
        assert(r =~= s);
    } else if is_prefix(seq![c], s) {
        let rest = s.subrange(1, s.len() as int);
        lemma_replace_single_removes(rest, c, to);
        let t = replace_all(rest, seq![c], to);
        assert(r == to + t);
        assert forall|j: int| 0 <= j < r.len() implies r[j] != c by {
            if j < to.len() {
                assert(r[j] == to[j]);
            } else {
                assert(r[j] == t[j - to.len()]);
            }
        }
    } else {
        let rest = s.drop_first();
        lemma_replace_single_removes(rest, c, to);
        let t = replace_all(rest, seq![c], to);
        assert(s.subrange(0, 1) =~= seq![s[0]]);
        assert(s[0] != c);
        assert(r == seq![s[0]] + t);
        assert forall|j: int| 0 <= j < r.len() implies r[j] != c by {
            if j > 0 {
                assert(r[j] == t[j - 1]);
            }
        }
    }
}

/// A demangled name holds no `.`: a qualified name becomes one identifier.
pub proof fn law_demangled_name_has_no_dot(name: Seq<char>)
    ensures
        !spec_demangle(name).contains('.'),
{
    reveal_strlit(".");
    reveal_strlit("_");
    assert("."@ =~= seq!['.']);
    assert(!"_"@.contains('.'));
    lemma_replace_single_removes(
        replace_all(trim_start_matches(name, "::<module>"@), "::"@, "__"@),
        '.',
        "_"@,
    );
}

/// The position of the first `\n` in `s`, or its length if there is none.
pub open spec fn find_newline(s: Seq<char>) -> nat
    decreases s.len(),
{
    if s.len() == 0 || s[0] == '\n' {
        0
    } else {
        1 + find_newline(s.drop_first())
    }
}

/// A line ended by `\n` loses the `\r` just before it.
pub open spec fn strip_cr(line: Seq<char>) -> Seq<char> {
    if line.len() > 0 && line.last() == '\r' {
        line.drop_last()
    } else {
        line
    }
}

/// The lines of `s`, as `str::lines` gives them: split at `\n` or `\r\n`,
/// the final line ending optional.
pub open spec fn text_lines(s: Seq<char>) -> Seq<Seq<char>>
    decreases s.len(),
{
    if s.len() == 0 {
        Seq::empty()
    } else {
        let k = find_newline(s);
        if k < s.len() {
            seq![strip_cr(s.subrange(0, k as int))] + text_lines(
                s.subrange(k as int + 1, s.len() as int),
            )
        } else {
            seq![s]
        }
    }
}

/// A line that imports from another core runtime module.
pub open spec fn is_erg_import(line: Seq<char>) -> bool {
    is_prefix("from _erg"@, trim_start(line))
}

/// The lines that are no such import, each ended by `\n`.
pub open spec fn kept_lines(lines: Seq<Seq<char>>) -> Seq<char>
    decreases lines.len(),
{
    if lines.len() == 0 {
        Seq::empty()
    } else {
        (if is_erg_import(lines[0]) {
            Seq::empty()
        } else {
            lines[0].push('\n')
        }) + kept_lines(lines.drop_first())
    }
}

/// `src` without its imports from other core runtime modules.
pub open spec fn spec_strip_erg_imports(src: Seq<char>) -> Seq<char> {
    kept_lines(text_lines(src))
}

proof fn lemma_find_newline(s: Seq<char>, k: int)
    requires
        0 <= k <= s.len(),
        forall|t: int| 0 <= t < k ==> s[t] != '\n',
        k == s.len() || s[k] == '\n',
    ensures
        find_newline(s) == k,
    decreases k,
{
    if k > 0 {
        lemma_find_newline(s.drop_first(), k - 1);
    }
}

/// The position of the first character of `line` that is no white space.
fn first_non_space(line: &Vec<char>) -> (a: usize)
    ensures
        a <= line@.len(),
        trim_start(line@) == line@.skip(a as int),
{
    let mut a: usize = 0;
    assert(line@.skip(0) =~= line@);
    while a < line.len() && is_white_space_char(line[a])
        invariant
            a <= line@.len(),
            trim_start(line@) == trim_start(line@.skip(a as int)),
        decreases line.len() - a,
    {
        assert(line@.skip(a as int).drop_first() =~= line@.skip(a + 1));
        a = a + 1;
    }
    a
}

fn is_erg_import_line(line: &Vec<char>, pattern: &Vec<char>) -> (r: bool)
    requires
        pattern@ == "from _erg"@,
    ensures
        r == is_erg_import(line@),
{
    let a = first_non_space(line);
    let r = occurs_at_exec(line, pattern, a);
    let ghost t = line@.skip(a as int);
    if r {
        assert(t.subrange(0, pattern@.len() as int) =~= line@.subrange(
            a as int,
            a + pattern@.len(),
        ));
    } else {
        assert(!is_prefix(pattern@, t)) by {
            if is_prefix(pattern@, t) {
                assert(line@.subrange(a as int, a + pattern@.len()) =~= t.subrange(
                    0,
                    pattern@.len() as int,
                ));
            }
        }
    }
    r
}

/// Removes from a core runtime module its imports from the other core
/// modules, which are inlined into the same prelude.
pub fn strip_erg_imports(src: &str) -> (r: String)
    ensures
        r@ == spec_strip_erg_imports(src@),
{
    let cs = chars_of(src);
    let pattern = chars_of("from _erg");
    let mut out: Vec<char> = Vec::new();
    let mut i: usize = 0;
    assert(cs@.skip(0) =~= cs@);
    while i < cs.len()
        invariant
            i <= cs@.len(),
            pattern@ == "from _erg"@,
            kept_lines(text_lines(cs@)) == out@ + kept_lines(text_lines(cs@.skip(i as int))),
        decreases cs.len() - i,
    {
        let ghost rest = cs@.skip(i as int);
        let mut j: usize = i;
        while j < cs.len() && cs[j] != '\n'
            invariant
                i <= j <= cs@.len(),
                forall|t: int| i <= t < j ==> cs@[t] != '\n',
            decreases cs.len() - j,
        {
            j = j + 1;
        }
        proof {
            lemma_find_newline(rest, j - i);
        }
        let mut end: usize = j;
        if j < cs.len() && j > i && cs[j - 1] == '\r' {
            end = j - 1;
        }
        let mut line: Vec<char> = Vec::new();
        let mut t: usize = i;
        while t < end
            invariant
                i <= t <= end <= cs@.len(),
                line@ == cs@.subrange(i as int, t as int),
            decreases end - t,
        {
            line.push(cs[t]);
            t = t + 1;
            assert(line@ =~= cs@.subrange(i as int, t as int));
        }
        let ghost this_line = if j < cs@.len() {
            strip_cr(rest.subrange(0, j - i))
        } else {
            rest
        };
        assert(line@ =~= this_line);
        let ghost next = if j < cs@.len() {
            cs@.skip(j + 1)
        } else {
            cs@.skip(j as int)
        };
        if j < cs.len() {
            assert(rest.subrange(j - i + 1, rest.len() as int) =~= cs@.skip(j + 1));
        } else {
            assert(next =~= Seq::<char>::empty());
        }
        assert(text_lines(rest) =~= seq![this_line] + text_lines(next));
        assert((seq![this_line] + text_lines(next)).drop_first() =~= text_lines(next));
        let ghost before = out@;
        if !is_erg_import_line(&line, &pattern) {
            append_chars(&mut out, &line);
            out.push('\n');
            assert(out@ =~= before + this_line.push('\n'));
        }
        assert(kept_lines(text_lines(rest)) =~= (if is_erg_import(this_line) {
            Seq::empty()
        } else {
            this_line.push('\n')
        }) + kept_lines(text_lines(next)));
        if j < cs.len() {
            i = j + 1;
        } else {
            i = j;
        }
    }
    assert(cs@.skip(i as int) =~= Seq::<char>::empty());
    assert(out@ + Seq::<char>::empty() =~= out@);
    string_of(&out)
}

/// A transpiled Python script.
#[derive(Debug, Clone)]
pub struct PyScript {
    pub filename: String,
    pub code: String,
}

/// A module's declarations transpiled to JSON.
#[derive(Debug, Clone)]
pub struct Json {
    pub filename: String,
    pub code: String,
}

/// The output of a transpilation, in one of the target formats.
#[derive(Debug)]
pub enum TranspiledFile {
    PyScript(PyScript),
    Json(Json),
}

impl TranspiledFile {
    pub open spec fn spec_code(&self) -> Seq<char> {
        match self {
            TranspiledFile::PyScript(script) => script.code@,
            TranspiledFile::Json(json) => json.code@,
        }
    }

    pub open spec fn spec_filename(&self) -> Seq<char> {
        match self {
            TranspiledFile::PyScript(script) => script.filename@,
            TranspiledFile::Json(json) => json.filename@,
        }
    }

    pub open spec fn spec_extension(&self) -> Seq<char> {
        match self {
            TranspiledFile::PyScript(_) => "py"@,
            TranspiledFile::Json(_) => "json"@,
        }
    }

    /// The generated text.
    pub fn code(&self) -> (r: &str)
        ensures
            r@ == self.spec_code(),
    {
        match self {
            TranspiledFile::PyScript(script) => script.code.as_str(),
            TranspiledFile::Json(json) => json.code.as_str(),
        }
    }

    /// The generated text, taken out of the file.
    pub fn into_code(self) -> (r: String)
        ensures
            r@ == self.spec_code(),
    {
        match self {
            TranspiledFile::PyScript(script) => script.code,
            TranspiledFile::Json(json) => json.code,
        }
    }

    /// The name of the file to write.
    pub fn filename(&self) -> (r: &str)
        ensures
            r@ == self.spec_filename(),
    {
        match self {
            TranspiledFile::PyScript(script) => script.filename.as_str(),
            TranspiledFile::Json(json) => json.filename.as_str(),
        }
    }

    /// The file extension of the target format.
    pub fn extension(&self) -> (r: &str)
        ensures
            r@ == self.spec_extension(),
    {
        match self {
            TranspiledFile::PyScript(_) => "py",
            TranspiledFile::Json(_) => "json",
        }
    }
}

/// How a character of a literal's source text is written inside a Python
/// string: newlines, carriage returns, tabs and NULs as escapes.
pub open spec fn escaped_char(c: char) -> Seq<char> {
    if c == '\n' {
        seq!['\\', 'n']
    } else if c == '\r' {
        seq!['\\', 'r']
    } else if c == '\t' {
        seq!['\\', 't']
    } else if c == '\0' {
        seq!['\\', '0']
    } else {
        seq![c]
    }
}

/// `s` with each character written as `escaped_char` gives it.
pub open spec fn escaped(s: Seq<char>) -> Seq<char>
    decreases s.len(),
{
    if s.len() == 0 {
        Seq::empty()
    } else {
        escaped(s.drop_last()) + escaped_char(s.last())
    }
}

/// Appends `s` to `out` with its control characters escaped.
pub fn write_escaped_str(s: &str, out: &mut String)
    ensures
        final(out)@ == old(out)@ + escaped(s@),
{
    let cs = chars_of(s);
    let ghost start = out@;
    let mut i: usize = 0;
    while i < cs.len()
        invariant
            i <= cs@.len(),
            cs@ == s@,
            out@ == start + escaped(cs@.subrange(0, i as int)),
        decreases cs.len() - i,
    {
        let c = cs[i];
        let ghost before = out@;
        if c == '\n' {
            out.push('\\');
            out.push('n');
        } else if c == '\r' {
            out.push('\\');
            out.push('r');
        } else if c == '\t' {
            out.push('\\');
            out.push('t');
        } else if c == '\0' {
            out.push('\\');
            out.push('0');
        } else {
            out.push(c);
        }
        assert(out@ =~= before + escaped_char(c));
        assert(cs@.subrange(0, i + 1).drop_last() =~= cs@.subrange(0, i as int));
        i = i + 1;
    }
    assert(cs@.subrange(0, cs@.len() as int) =~= cs@);
}

/// `sub` occurs somewhere in `s`.
pub open spec fn contains_text(s: Seq<char>, sub: Seq<char>) -> bool {
    exists|k: int| occurs_at(s, sub, k)
}

pub(crate) fn contains_chars(s: &Vec<char>, sub: &Vec<char>) -> (r: bool)
    ensures
        r == contains_text(s@, sub@),
{
    let mut k: usize = 0;
    while k < s.len()
        invariant
            k <= s@.len(),
            forall|j: int| 0 <= j < k ==> !occurs_at(s@, sub@, j),
        decreases s.len() - k,
    {
        if occurs_at_exec(s, sub, k) {
            return true;
        }
        k = k + 1;
    }
    if occurs_at_exec(s, sub, k) {
        return true;
    }
    assert forall|j: int| !occurs_at(s@, sub@, j) by {
        if 0 <= j && j < k {
        }
    }
    false
}

/// The text of an optional string slice.
pub open spec fn text_of(o: Option<&str>) -> Option<Seq<char>> {
    match o {
        Some(t) => Some(t@),
        None => None,
    }
}

/// The text of an optional string.
pub open spec fn owned_text(o: Option<String>) -> Option<Seq<char>> {
    match o {
        Some(t) => Some(t@),
        None => None,
    }
}

/// The name under which a patch method or attribute is emitted, from its
/// Python name: a function drops its `Function::` qualifier, a qualified
/// name stays as it is, with `__` after it when it is private; any other
/// name has none of its own.
pub open spec fn spec_debind(py_name: Option<Seq<char>>, private: bool) -> Option<Seq<char>> {
    match py_name {
        Some(name) => if is_prefix("Function::"@, name) {
            Some(replace_all(name, "Function::"@, Seq::empty()))
        } else if contains_text(name, "::"@) || name.contains('.') {
            if private {
                Some(name + "__"@)
            } else {
                Some(name)
            }
        } else {
            None
        },
        None => None,
    }
}

/// The name under which a patch method (bound as a function) or a patch
/// attribute (bound as a variable) is emitted.
pub fn debind(py_name: Option<&str>, private: bool) -> (r: Option<String>)
    ensures
        owned_text(r) == spec_debind(text_of(py_name), private),
{
    let Some(name) = py_name else {
        return None;
    };
    let cs = chars_of(name);
    let function = chars_of("Function::");
    if occurs_at_exec(&cs, &function, 0) {
        assert(cs@.subrange(0, function@.len() as int) =~= function@) ;
        let empty: Vec<char> = Vec::new();
        let r = replace_chars(&cs, &function, &empty);
        assert(empty@ =~= Seq::<char>::empty());
        return Some(string_of(&r));
    }
    assert(!is_prefix("Function::"@, cs@)) by {
        if is_prefix("Function::"@, cs@) {
            assert(occurs_at(cs@, function@, 0));
        }
    }
    let mut dot = false;
    let mut i: usize = 0;
    while i < cs.len()
        invariant
            i <= cs@.len(),
            dot == exists|j: int| 0 <= j < i && cs@[j] == '.',
        decreases cs.len() - i,
    {
        if cs[i] == '.' {
            dot = true;
        }
        i = i + 1;
    }
    assert(dot == cs@.contains('.'));
    if contains_chars(&cs, &chars_of("::")) || dot {
        let mut t = string_of(&cs);
        if private {
            t.push('_');
            t.push('_');
            proof {
                reveal_strlit("__");
            }
            assert(t@ =~= cs@ + "__"@);
        }
        Some(t)
    } else {
        None
    }
}

/// The position text that keeps a private name apart from names defined
/// elsewhere: `_L` and the line, `_C` and the column, each where known.
pub open spec fn line_mangling(line: u32, col: u32) -> Seq<char> {
    if line == 0 && col == 0 {
        Seq::empty()
    } else if line == 0 {
        "_C"@ + int_text(col as int)
    } else if col == 0 {
        "_L"@ + int_text(line as int)
    } else {
        "_L"@ + int_text(line as int) + "_C"@ + int_text(col as int)
    }
}

/// The Python name of a variable: its own Python name demangled if it has
/// one; otherwise its name with the non-symbolic characters spelled out,
/// which a private name (but `_`) follows with where it was defined.
pub open spec fn spec_transpile_name(
    py_name: Option<Seq<char>>,
    public: bool,
    name: Seq<char>,
    def_line: Option<u32>,
    def_col: Option<u32>,
) -> Seq<char> {
    match py_name {
        Some(p) => spec_demangle(p),
        None => {
            let n = spec_replace_non_symbolic(name);
            if public || n == "_"@ {
                n
            } else {
                n + line_mangling(
                    match def_line {
                        Some(l) => l,
                        None => 0,
                    },
                    match def_col {
                        Some(c) => c,
                        None => 0,
                    },
                )
            }
        },
    }
}

/// The Python name of a variable named `name`, public or not, with the
/// Python name `py_name` if it has one, defined at `def_line` and
/// `def_col` where known.
pub fn transpile_name(
    py_name: Option<&str>,
    public: bool,
    name: &str,
    def_line: Option<u32>,
    def_col: Option<u32>,
) -> (r: String)
    ensures
        r@ == spec_transpile_name(
            text_of(py_name),
            public,
            name@,
            def_line,
            def_col,
        ),
{
    if let Some(p) = py_name {
        return demangle(p);
    }
    let n = replace_non_symbolic(name);
    if public || str_eq(n.as_str(), "_") {
        return n;
    }
    let line: u32 = match def_line {
        Some(l) => l,
        None => 0,
    };
    let col: u32 = match def_col {
        Some(c) => c,
        None => 0,
    };
    let mut out = n;
    if line == 0 && col == 0 {
        assert(out@ + Seq::<char>::empty() =~= out@);
    } else if line == 0 {
        out.append("_C");
        out.append(int_string(col as i128).as_str());
    } else if col == 0 {
        out.append("_L");
        out.append(int_string(line as i128).as_str());
    } else {
        out.append("_L");
        out.append(int_string(line as i128).as_str());
        out.append("_C");
        out.append(int_string(col as i128).as_str());
    }
    assert(out@ =~= spec_replace_non_symbolic(name@) + line_mangling(line, col));
    out
}

/// No character of `s` is a newline.
pub open spec fn no_newline(s: Seq<char>) -> bool {
    forall|j: int| 0 <= j < s.len() ==> s[j] != '\n'
}

proof fn lemma_find_newline_bound(s: Seq<char>)
    ensures
        find_newline(s) <= s.len(),
        forall|j: int| 0 <= j < find_newline(s) ==> s[j] != '\n',
        find_newline(s) < s.len() ==> s[find_newline(s) as int] == '\n',
    decreases s.len(),
{
    if s.len() > 0 && s[0] != '\n' {
        lemma_find_newline_bound(s.drop_first());
        assert forall|j: int| 0 <= j < find_newline(s) implies s[j] != '\n' by {
            if j > 0 {
                assert(s[j] == s.drop_first()[j - 1]);
            }
        }
    }
}

/// A line ended by a newline, and what follows, read as lines: the line
/// first (without a `\r` before the newline), then the lines of the rest.
proof fn lemma_text_lines_of_line(line: Seq<char>, rest: Seq<char>)
    requires
        no_newline(line),
    ensures
        text_lines(line + seq!['\n'] + rest) == seq![strip_cr(line)] + text_lines(rest),
{
    let x = line + seq!['\n'] + rest;
    lemma_find_newline_bound(x);
    lemma_find_newline(x, line.len() as int);
    assert(x.subrange(0, line.len() as int) =~= line);
    assert(x.subrange(line.len() as int + 1, x.len() as int) =~= rest);
}

/// `s` ending in `\r` is `s` without it, then `\r`.
proof fn lemma_trim_start_push_cr(m: Seq<char>)
    ensures
        trim_start(m.push('\r')) == if trim_start(m).len() == 0 {
            Seq::<char>::empty()
        } else {
            trim_start(m).push('\r')
        },
    decreases m.len(),
{
    if m.len() == 0 {
        let t = m.push('\r');
        assert(t[0] == '\r');
        assert(is_white_space(t[0]));
        assert(t.drop_first() =~= Seq::<char>::empty());
        assert(trim_start(Seq::<char>::empty()) =~= Seq::<char>::empty());
        assert(trim_start(t) == trim_start(t.drop_first()));
    } else {
        assert(m.push('\r')[0] == m[0]);
        if is_white_space(m[0]) {
            assert(m.push('\r').drop_first() =~= m.drop_first().push('\r'));
            lemma_trim_start_push_cr(m.drop_first());
        }
    }
}

/// A line that is no import stays none without the `\r` before its
/// newline.
proof fn lemma_strip_cr_keeps_non_import(line: Seq<char>)
    requires
        is_erg_import(strip_cr(line)),
    ensures
        is_erg_import(line),
{
    reveal_strlit("from _erg");
    if line.len() > 0 && line.last() == '\r' {
        let m = line.drop_last();
        assert(line =~= m.push('\r'));
        lemma_trim_start_push_cr(m);
        let t = trim_start(m);
        assert(t.len() > 0);
        assert(t.push('\r').subrange(0, "from _erg"@.len() as int) =~= t.subrange(
            0,
            "from _erg"@.len() as int,
        ));
    }
}

/// The lines of `kept_lines(lines)`, for lines with no newline, are no
/// imports.
proof fn lemma_kept_lines_have_no_imports(lines: Seq<Seq<char>>)
    requires
        forall|i: int| 0 <= i < lines.len() ==> no_newline(#[trigger] lines[i]),
    ensures
        forall|i: int|
            0 <= i < text_lines(kept_lines(lines)).len() ==> !is_erg_import(
                #[trigger] text_lines(kept_lines(lines))[i],
            ),
    decreases lines.len(),
{
    if lines.len() > 0 {
        let rest = lines.drop_first();
        assert forall|i: int| 0 <= i < rest.len() implies no_newline(#[trigger] rest[i]) by {
            assert(rest[i] == lines[i + 1]);
        }
        lemma_kept_lines_have_no_imports(rest);
        if !is_erg_import(lines[0]) {
            let k = kept_lines(rest);
            assert(kept_lines(lines) =~= lines[0] + seq!['\n'] + k);
            lemma_text_lines_of_line(lines[0], k);
            assert forall|i: int|
                0 <= i < text_lines(kept_lines(lines)).len() implies !is_erg_import(
                #[trigger] text_lines(kept_lines(lines))[i],
            ) by {
                if i == 0 {
                    if is_erg_import(strip_cr(lines[0])) {
                        lemma_strip_cr_keeps_non_import(lines[0]);
                    }
                } else {
                    assert(text_lines(kept_lines(lines))[i] == text_lines(k)[i - 1]);
                }
            }
        } else {
            assert(kept_lines(lines) =~= kept_lines(rest));
        }
    }
}

/// Every line that `text_lines` gives holds no newline.
proof fn lemma_text_lines_have_no_newline(s: Seq<char>)
    ensures
        forall|i: int| 0 <= i < text_lines(s).len() ==> no_newline(#[trigger] text_lines(s)[i]),
    decreases s.len(),
{
    if s.len() > 0 {
        lemma_find_newline_bound(s);
        let k = find_newline(s);
        if k < s.len() {
            let rest = s.subrange(k as int + 1, s.len() as int);
            lemma_text_lines_have_no_newline(rest);
            let first = strip_cr(s.subrange(0, k as int));
            assert(no_newline(first));
            assert forall|i: int| 0 <= i < text_lines(s).len() implies no_newline(
                #[trigger] text_lines(s)[i],
            ) by {
                if i > 0 {
                    assert(text_lines(s)[i] == text_lines(rest)[i - 1]);
                }
            }
        }
    }
}

/// Once the imports from other core modules are stripped, no line of the
/// module imports from one: the modules can be inlined into one prelude.
pub proof fn law_stripped_module_has_no_erg_imports(src: Seq<char>)
    ensures
        forall|i: int|
            0 <= i < text_lines(spec_strip_erg_imports(src)).len() ==> !is_erg_import(
                #[trigger] text_lines(spec_strip_erg_imports(src))[i],
            ),
{
    lemma_text_lines_have_no_newline(src);
    lemma_kept_lines_have_no_imports(text_lines(src));
}

/// `line` ends in a `\r` (that a later split into lines would drop).
pub open spec fn ends_with_cr(line: Seq<char>) -> bool {
    line.len() > 0 && line.last() == '\r'
}

proof fn lemma_strip_kept_lines_again(lines: Seq<Seq<char>>)
    requires
        forall|i: int| 0 <= i < lines.len() ==> no_newline(#[trigger] lines[i]),
        forall|i: int|
            0 <= i < lines.len() && !is_erg_import(#[trigger] lines[i]) ==> !ends_with_cr(lines[i]),
    ensures
        kept_lines(text_lines(kept_lines(lines))) == kept_lines(lines),
    decreases lines.len(),
{
    if lines.len() > 0 {
        let rest = lines.drop_first();
        assert forall|i: int| 0 <= i < rest.len() implies no_newline(#[trigger] rest[i]) by {
            assert(rest[i] == lines[i + 1]);
        }
        assert forall|i: int|
            0 <= i < rest.len() && !is_erg_import(#[trigger] rest[i]) implies !ends_with_cr(
            rest[i],
        ) by {
            assert(rest[i] == lines[i + 1]);
        }
        lemma_strip_kept_lines_again(rest);
        let k = kept_lines(rest);
        if is_erg_import(lines[0]) {
            assert(kept_lines(lines) =~= k);
        } else {
            let l = lines[0];
            assert(kept_lines(lines) =~= l + seq!['\n'] + k);
            assert(no_newline(l));
            lemma_text_lines_of_line(l, k);
            assert(strip_cr(l) == l);
            let t = seq![l] + text_lines(k);
            assert(t[0] == l);
            assert(t.drop_first() =~= text_lines(k));
            assert(kept_lines(t) == l.push('\n') + kept_lines(text_lines(k)));
            assert(l.push('\n') + k =~= l + seq!['\n'] + k);
        }
    }
}

/// Stripping the imports a second time changes nothing, unless a kept line
/// ends in a `\r` that the second split into lines takes off.
pub proof fn law_strip_erg_imports_is_idempotent(src: Seq<char>)
    requires
        forall|i: int|
            0 <= i < text_lines(src).len() && !is_erg_import(#[trigger] text_lines(src)[i])
                ==> !ends_with_cr(text_lines(src)[i]),
    ensures
        spec_strip_erg_imports(spec_strip_erg_imports(src)) == spec_strip_erg_imports(src),
{
    lemma_text_lines_have_no_newline(src);
    lemma_strip_kept_lines_again(text_lines(src));
}

/// The core runtime modules, in definition order: a module comes after
/// every module whose classes its own class definitions inherit from.
pub open spec fn core_module_names() -> Seq<Seq<char>> {
    seq![
        "_erg_result"@,
        "_erg_control"@,
        "_erg_type"@,
        "_erg_int"@,
        "_erg_nat"@,
        "_erg_bool"@,
        "_erg_str"@,
        "_erg_float"@,
        "_erg_range"@,
        "_erg_contains_operator"@,
        "_erg_mutate_operator"@,
        "_erg_list"@,
        "_erg_dict"@,
        "_erg_set"@,
        "_erg_bytes"@,
        "_erg_convertors"@,
    ]
}

/// The modules that the range operators need (a transitive closure, in
/// definition order).
pub open spec fn range_ops_modules() -> Seq<Seq<char>> {
    seq![
        "_erg_result"@,
        "_erg_control"@,
        "_erg_type"@,
        "_erg_int"@,
        "_erg_nat"@,
        "_erg_str"@,
        "_erg_range"@,
    ]
}

/// The modules that the containment operator needs.
pub open spec fn contains_op_modules() -> Seq<Seq<char>> {
    seq!["_erg_result"@, "_erg_type"@, "_erg_range"@, "_erg_contains_operator"@]
}

/// The modules that the builtin types need.
pub open spec fn builtin_types_modules() -> Seq<Seq<char>> {
    seq![
        "_erg_result"@,
        "_erg_control"@,
        "_erg_type"@,
        "_erg_int"@,
        "_erg_nat"@,
        "_erg_bool"@,
        "_erg_str"@,
        "_erg_float"@,
        "_erg_range"@,
        "_erg_contains_operator"@,
        "_erg_list"@,
        "_erg_dict"@,
        "_erg_set"@,
        "_erg_bytes"@,
    ]
}

/// The modules that the convertors need.
pub open spec fn convertors_modules() -> Seq<Seq<char>> {
    seq![
        "_erg_result"@,
        "_erg_control"@,
        "_erg_type"@,
        "_erg_int"@,
        "_erg_nat"@,
        "_erg_str"@,
        "_erg_float"@,
        "_erg_convertors"@,
    ]
}

/// The texts of a list of names.
pub open spec fn names_view(names: Seq<&str>) -> Seq<Seq<char>> {
    Seq::new(names.len(), |i: int| names[i]@)
}

/// The names of the core runtime modules, in definition order.
pub fn core_modules() -> (r: Vec<&'static str>)
    ensures
        names_view(r@) == core_module_names(),
{
    let r = vec![
        "_erg_result",
        "_erg_control",
        "_erg_type",
        "_erg_int",
        "_erg_nat",
        "_erg_bool",
        "_erg_str",
        "_erg_float",
        "_erg_range",
        "_erg_contains_operator",
        "_erg_mutate_operator",
        "_erg_list",
        "_erg_dict",
        "_erg_set",
        "_erg_bytes",
        "_erg_convertors",
    ];
    assert(names_view(r@) =~= core_module_names());
    r
}

/// `name` is the name of a core runtime module.
pub open spec fn is_core_module(name: Seq<char>) -> bool {
    core_module_names().contains(name)
}

/// Where `name` first stands among the core module names.
pub open spec fn first_at(names: Seq<Seq<char>>, name: Seq<char>, i: int) -> bool {
    0 <= i < names.len() && names[i] == name && forall|k: int| 0 <= k < i ==> names[k] != name
}

/// The position of the core module `name` in definition order.
pub open spec fn core_position(name: Seq<char>) -> int {
    choose|i: int| first_at(core_module_names(), name, i)
}

proof fn lemma_core_position(name: Seq<char>, i: int)
    requires
        first_at(core_module_names(), name, i),
    ensures
        core_position(name) == i,
{
    let j = core_position(name);
    assert(first_at(core_module_names(), name, j));
    if j < i {
        assert(core_module_names()[j] != name);
    } else if i < j {
        assert(core_module_names()[i] != name);
    }
}

/// Where the core module `name` stands in definition order.
fn core_index(name: &str) -> (r: usize)
    requires
        is_core_module(name@),
    ensures
        r < core_module_names().len(),
        r as int == core_position(name@),
{
    let names = core_modules();
    let mut i: usize = 0;
    while i < names.len()
        invariant
            names_view(names@) == core_module_names(),
            is_core_module(name@),
            i <= names@.len(),
            forall|k: int| 0 <= k < i ==> core_module_names()[k] != name@,
        decreases names.len() - i,
    {
        assert(names_view(names@)[i as int] == names@[i as int]@);
        if str_eq(names[i], name) {
            proof {
                lemma_core_position(name@, i as int);
            }
            return i;
        }
        i = i + 1;
    }
    proof {
        let k = choose|k: int|
            0 <= k < core_module_names().len() && core_module_names()[k] == name@;
        assert(core_module_names()[k] != name@);
    }
    0
}

/// The modules `f` are the core modules at the positions `ks`.
proof fn lemma_picked_from_core(f: Seq<Seq<char>>, ks: Seq<int>)
    requires
        f.len() == ks.len(),
        forall|i: int|
            0 <= i < ks.len() ==> 0 <= #[trigger] ks[i] < core_module_names().len()
                && core_module_names()[ks[i]] == f[i],
    ensures
        forall|i: int| 0 <= i < f.len() ==> is_core_module(#[trigger] f[i]),
{
    assert forall|i: int| 0 <= i < f.len() implies is_core_module(#[trigger] f[i]) by {
        assert(core_module_names()[ks[i]] == f[i]);
    }
}

/// Each module that a feature needs is a core module.
proof fn lemma_feature_modules_are_core()
    ensures
        forall|i: int|
            0 <= i < range_ops_modules().len() ==> is_core_module(#[trigger] range_ops_modules()[i]),
        forall|i: int|
            0 <= i < contains_op_modules().len() ==> is_core_module(
                #[trigger] contains_op_modules()[i],
            ),
        forall|i: int|
            0 <= i < builtin_types_modules().len() ==> is_core_module(
                #[trigger] builtin_types_modules()[i],
            ),
        forall|i: int|
            0 <= i < convertors_modules().len() ==> is_core_module(
                #[trigger] convertors_modules()[i],
            ),
{
    lemma_picked_from_core(range_ops_modules(), seq![0, 1, 2, 3, 4, 6, 8]);
    lemma_picked_from_core(contains_op_modules(), seq![0, 2, 8, 9]);
    lemma_picked_from_core(
        builtin_types_modules(),
        seq![0, 1, 2, 3, 4, 5, 6, 7, 8, 9, 11, 12, 13, 14],
    );
    lemma_picked_from_core(convertors_modules(), seq![0, 1, 2, 3, 4, 6, 7, 15]);
}

fn range_ops_names() -> (r: Vec<&'static str>)
    ensures
        names_view(r@) == range_ops_modules(),
{
    let r = vec![
        "_erg_result",
        "_erg_control",
        "_erg_type",
        "_erg_int",
        "_erg_nat",
        "_erg_str",
        "_erg_range",
    ];
    assert(names_view(r@) =~= range_ops_modules());
    r
}

fn contains_op_names() -> (r: Vec<&'static str>)
    ensures
        names_view(r@) == contains_op_modules(),
{
    let r = vec!["_erg_result", "_erg_type", "_erg_range", "_erg_contains_operator"];
    assert(names_view(r@) =~= contains_op_modules());
    r
}

fn builtin_types_names() -> (r: Vec<&'static str>)
    ensures
        names_view(r@) == builtin_types_modules(),
{
    let r = vec![
        "_erg_result",
        "_erg_control",
        "_erg_type",
        "_erg_int",
        "_erg_nat",
        "_erg_bool",
        "_erg_str",
        "_erg_float",
        "_erg_range",
        "_erg_contains_operator",
        "_erg_list",
        "_erg_dict",
        "_erg_set",
        "_erg_bytes",
    ];
    assert(names_view(r@) =~= builtin_types_modules());
    r
}

fn convertors_names() -> (r: Vec<&'static str>)
    ensures
        names_view(r@) == convertors_modules(),
{
    let r = vec![
        "_erg_result",
        "_erg_control",
        "_erg_type",
        "_erg_int",
        "_erg_nat",
        "_erg_str",
        "_erg_float",
        "_erg_convertors",
    ];
    assert(names_view(r@) =~= convertors_modules());
    r
}

/// The sources of the core runtime modules, one per module in definition
/// order, each with its imports from the other core modules removed.
pub struct CoreModules {
    sources: Vec<String>,
}

impl View for CoreModules {
    type V = Seq<Seq<char>>;

    closed spec fn view(&self) -> Seq<Seq<char>> {
        Seq::new(self.sources@.len(), |i: int| self.sources@[i]@)
    }
}

impl CoreModules {
    /// One source per core module.
    pub open spec fn wf(&self) -> bool {
        self@.len() == core_module_names().len()
    }

    /// The core modules from their sources as written, in definition
    /// order; there must be one for each core module.
    pub fn new(raw: Vec<String>) -> (r: Option<CoreModules>)
        ensures
            raw@.len() != core_module_names().len() ==> r is None,
            raw@.len() == core_module_names().len() ==> (r matches Some(c) && c.wf() && forall|
                i: int,
            |
                0 <= i < raw@.len() ==> #[trigger] c@[i] == spec_strip_erg_imports(raw@[i]@)),
    {
        if raw.len() != 16 {
            assert(core_module_names().len() == 16);
            return None;
        }
        let mut sources: Vec<String> = Vec::new();
        let mut i: usize = 0;
        while i < raw.len()
            invariant
                i <= raw@.len(),
                sources@.len() == i,
                forall|k: int|
                    0 <= k < i ==> #[trigger] sources@[k]@ == spec_strip_erg_imports(raw@[k]@),
            decreases raw.len() - i,
        {
            sources.push(strip_erg_imports(raw[i].as_str()));
            i = i + 1;
        }
        Some(CoreModules { sources })
    }

    /// The source of the core module `name`, ready to be inlined.
    pub fn stripped_module_src(&self, name: &str) -> (r: &str)
        requires
            self.wf(),
            is_core_module(name@),
        ensures
            r@ == self@[core_position(name@)],
    {
        let i = core_index(name);
        self.sources[i].as_str()
    }
}

/// The import that brings named tuples into the prelude.
pub open spec fn namedtuple_import() -> Seq<char> {
    "from collections import namedtuple as NamedTuple__\n"@
}

/// What the prelude of a Python script holds so far: the core modules
/// inlined into it, in the order they were, whether the named tuple import
/// is in it, and its text.
pub struct PreludeView {
    pub loaded: Seq<Seq<char>>,
    pub namedtuple_loaded: bool,
    pub prelude: Seq<char>,
}

/// Inlines the core module `name` (from `sources`) unless it is in already.
pub open spec fn load_module_step(
    sources: Seq<Seq<char>>,
    s: PreludeView,
    name: Seq<char>,
) -> PreludeView {
    if s.loaded.contains(name) {
        s
    } else {
        PreludeView {
            loaded: s.loaded.push(name),
            namedtuple_loaded: s.namedtuple_loaded,
            prelude: s.prelude + sources[core_position(name)],
        }
    }
}

/// Inlines the core modules `names`, one after the other.
pub open spec fn load_modules_steps(
    sources: Seq<Seq<char>>,
    s: PreludeView,
    names: Seq<Seq<char>>,
) -> PreludeView
    decreases names.len(),
{
    if names.len() == 0 {
        s
    } else {
        load_module_step(sources, load_modules_steps(sources, s, names.drop_last()), names.last())
    }
}

/// Adds the named tuple import unless it is in already.
pub open spec fn load_namedtuple_step(s: PreludeView) -> PreludeView {
    if s.namedtuple_loaded {
        s
    } else {
        PreludeView {
            loaded: s.loaded,
            namedtuple_loaded: true,
            prelude: s.prelude + namedtuple_import(),
        }
    }
}

/// The state of the Python script generator that decides what the prelude
/// of the generated script holds: each core module that the script needs
/// is inlined once, before the script's own code.
pub struct PyScriptGenerator {
    modules: CoreModules,
    loaded_mods: Vec<String>,
    namedtuple_loaded: bool,
    prelude: String,
}

impl View for PyScriptGenerator {
    type V = PreludeView;

    closed spec fn view(&self) -> PreludeView {
        PreludeView {
            loaded: Seq::new(self.loaded_mods@.len(), |i: int| self.loaded_mods@[i]@),
            namedtuple_loaded: self.namedtuple_loaded,
            prelude: self.prelude@,
        }
    }
}

impl PyScriptGenerator {
    /// The sources of the core modules that this generator inlines.
    pub closed spec fn core_sources(&self) -> Seq<Seq<char>> {
        self.modules@
    }

    /// Every core module is inlined at most once, and only core modules
    /// are.
    pub closed spec fn wf(&self) -> bool {
        &&& self.modules.wf()
        &&& self@.loaded.no_duplicates()
        &&& forall|i: int| 0 <= i < self@.loaded.len() ==> is_core_module(#[trigger] self@.loaded[i])
    }

    /// A generator whose prelude is still empty.
    pub fn new(modules: CoreModules) -> (r: PyScriptGenerator)
        requires
            modules.wf(),
        ensures
            r.wf(),
            r.core_sources() == modules@,
            r@.loaded == Seq::<Seq<char>>::empty(),
            !r@.namedtuple_loaded,
            r@.prelude == Seq::<char>::empty(),
    {
        let r = PyScriptGenerator {
            modules,
            loaded_mods: Vec::new(),
            namedtuple_loaded: false,
            prelude: String::new(),
        };
        assert(r@.loaded =~= Seq::<Seq<char>>::empty());
        r
    }

    /// The prelude written so far.
    pub fn prelude(&self) -> (r: &str)
        ensures
            r@ == self@.prelude,
    {
        self.prelude.as_str()
    }

    /// Hands out the prelude and empties it; the modules stay counted as
    /// inlined.
    pub fn take_prelude(&mut self) -> (r: String)
        requires
            old(self).wf(),
        ensures
            final(self).wf(),
            final(self).core_sources() == old(self).core_sources(),
            r@ == old(self)@.prelude,
            final(self)@ == (PreludeView { prelude: Seq::empty(), ..old(self)@ }),
    {
        let mut r = String::new();
        std::mem::swap(&mut r, &mut self.prelude);
        assert(self@.loaded =~= old(self)@.loaded);
        r
    }

    /// Puts the named tuple import into the prelude unless it is there.
    pub fn load_namedtuple_if_not(&mut self)
        requires
            old(self).wf(),
        ensures
            final(self).wf(),
            final(self).core_sources() == old(self).core_sources(),
            final(self)@ == load_namedtuple_step(old(self)@),
    {
        if !self.namedtuple_loaded {
            self.prelude.append("from collections import namedtuple as NamedTuple__\n");
            self.namedtuple_loaded = true;
        }
        assert(self@.loaded =~= old(self)@.loaded);
    }

    fn is_loaded(&self, name: &str) -> (r: bool)
        ensures
            r == self@.loaded.contains(name@),
    {
        let mut i: usize = 0;
        while i < self.loaded_mods.len()
            invariant
                i <= self.loaded_mods@.len(),
                self@.loaded.len() == self.loaded_mods@.len(),
                forall|k: int| 0 <= k < i ==> self@.loaded[k] != name@,
            decreases self.loaded_mods.len() - i,
        {
            assert(self@.loaded[i as int] == self.loaded_mods@[i as int]@);
            if str_eq(self.loaded_mods[i].as_str(), name) {
                return true;
            }
            i = i + 1;
        }
        false
    }

    /// Inlines the core module `name` into the prelude unless it is there.
    pub fn load_module_if_not(&mut self, name: &str)
        requires
            old(self).wf(),
            is_core_module(name@),
        ensures
            final(self).wf(),
            final(self).core_sources() == old(self).core_sources(),
            final(self)@ == load_module_step(old(self).core_sources(), old(self)@, name@),
    {
        if !self.is_loaded(name) {
            let src = self.modules.stripped_module_src(name);
            let ghost before = self@;
            self.prelude.append(src);
            self.loaded_mods.push(string_from(name));
            assert(self@.loaded =~= before.loaded.push(name@));
            assert(self@.loaded.no_duplicates()) by {
                assert forall|i: int, j: int|
                    0 <= i < self@.loaded.len() && 0 <= j < self@.loaded.len() && i != j
                    implies self@.loaded[i] != self@.loaded[j] by {
                    if i < before.loaded.len() && j < before.loaded.len() {
                    } else if i == before.loaded.len() {
                        assert(before.loaded[j] != name@);
                    } else {
                        assert(before.loaded[i] != name@);
                    }
                }
            }
            assert forall|i: int| 0 <= i < self@.loaded.len() implies is_core_module(
                #[trigger] self@.loaded[i],
            ) by {
                if i < before.loaded.len() {
                    assert(is_core_module(before.loaded[i]));
                }
            }
        }
    }

    /// Inlines each of the core modules `names`, in order, unless it is
    /// there.
    pub fn load_modules_if_not(&mut self, names: &[&str])
        requires
            old(self).wf(),
            forall|i: int| 0 <= i < names@.len() ==> is_core_module(#[trigger] names@[i]@),
        ensures
            final(self).wf(),
            final(self).core_sources() == old(self).core_sources(),
            final(self)@ == load_modules_steps(
                old(self).core_sources(),
                old(self)@,
                names_view(names@),
            ),
    {
        let mut i: usize = 0;
        while i < names.len()
            invariant
                i <= names@.len(),
                self.wf(),
                self.core_sources() == old(self).core_sources(),
                forall|k: int| 0 <= k < names@.len() ==> is_core_module(#[trigger] names@[k]@),
                self@ == load_modules_steps(
                    old(self).core_sources(),
                    old(self)@,
                    names_view(names@).subrange(0, i as int),
                ),
            decreases names.len() - i,
        {
            let ghost prev = self@;
            self.load_module_if_not(names[i]);
            assert(names_view(names@).subrange(0, i + 1).drop_last() =~= names_view(
                names@,
            ).subrange(0, i as int));
            assert(names_view(names@).subrange(0, i + 1).last() == names@[i as int]@);
            i = i + 1;
        }
        assert(names_view(names@).subrange(0, names@.len() as int) =~= names_view(names@));
    }

    fn load_feature(&mut self, names: Vec<&'static str>, Ghost(feature): Ghost<Seq<Seq<char>>>)
        requires
            old(self).wf(),
            names_view(names@) == feature,
            forall|i: int| 0 <= i < feature.len() ==> is_core_module(#[trigger] feature[i]),
        ensures
            final(self).wf(),
            final(self).core_sources() == old(self).core_sources(),
            final(self)@ == load_modules_steps(old(self).core_sources(), old(self)@, feature),
    {
        assert forall|i: int| 0 <= i < names@.len() implies is_core_module(#[trigger] names@[i]@) by {
            assert(names_view(names@)[i] == names@[i]@);
        }
        self.load_modules_if_not(names.as_slice());
    }

    /// Inlines what the range operators need.
    pub fn load_range_ops_if_not(&mut self)
        requires
            old(self).wf(),
        ensures
            final(self).wf(),
            final(self).core_sources() == old(self).core_sources(),
            final(self)@ == load_modules_steps(
                old(self).core_sources(),
                old(self)@,
                range_ops_modules(),
            ),
    {
        proof {
            lemma_feature_modules_are_core();
        }
        self.load_feature(range_ops_names(), Ghost(range_ops_modules()));
    }

    /// Inlines what the containment operator needs.
    pub fn load_contains_op_if_not(&mut self)
        requires
            old(self).wf(),
        ensures
            final(self).wf(),
            final(self).core_sources() == old(self).core_sources(),
            final(self)@ == load_modules_steps(
                old(self).core_sources(),
                old(self)@,
                contains_op_modules(),
            ),
    {
        proof {
            lemma_feature_modules_are_core();
        }
        self.load_feature(contains_op_names(), Ghost(contains_op_modules()));
    }

    /// Inlines the mutation operator.
    pub fn load_mutate_op_if_not(&mut self)
        requires
            old(self).wf(),
        ensures
            final(self).wf(),
            final(self).core_sources() == old(self).core_sources(),
            final(self)@ == load_module_step(
                old(self).core_sources(),
                old(self)@,
                "_erg_mutate_operator"@,
            ),
    {
        assert(core_module_names()[10] == "_erg_mutate_operator"@);
        self.load_module_if_not("_erg_mutate_operator");
    }

    /// Inlines what the builtin types need.
    pub fn load_builtin_types_if_not(&mut self)
        requires
            old(self).wf(),
        ensures
            final(self).wf(),
            final(self).core_sources() == old(self).core_sources(),
            final(self)@ == load_modules_steps(
                old(self).core_sources(),
                old(self)@,
                builtin_types_modules(),
            ),
    {
        proof {
            lemma_feature_modules_are_core();
        }
        self.load_feature(builtin_types_names(), Ghost(builtin_types_modules()));
    }

    /// Inlines the builtin control functions.
    pub fn load_builtin_controls_if_not(&mut self)
        requires
            old(self).wf(),
        ensures
            final(self).wf(),
            final(self).core_sources() == old(self).core_sources(),
            final(self)@ == load_module_step(old(self).core_sources(), old(self)@, "_erg_control"@),
    {
        assert(core_module_names()[1] == "_erg_control"@);
        self.load_module_if_not("_erg_control");
    }

    /// Inlines what the convertors need.
    pub fn load_convertors_if_not(&mut self)
        requires
            old(self).wf(),
        ensures
            final(self).wf(),
            final(self).core_sources() == old(self).core_sources(),
            final(self)@ == load_modules_steps(
                old(self).core_sources(),
                old(self)@,
                convertors_modules(),
            ),
    {
        proof {
            lemma_feature_modules_are_core();
        }
        self.load_feature(convertors_names(), Ghost(convertors_modules()));
    }
}

/// Inlining a core module a second time changes nothing.
pub proof fn law_inlining_is_idempotent(sources: Seq<Seq<char>>, s: PreludeView, name: Seq<char>)
    ensures
        load_module_step(sources, load_module_step(sources, s, name), name) == load_module_step(
            sources,
            s,
            name,
        ),
{
    if !s.loaded.contains(name) {
        assert(s.loaded.push(name)[s.loaded.len() as int] == name);
    }
}

/// Inlining modules only appends: what the prelude held stays at its
/// front, the modules inlined before stay first, in their order, and each
/// of `names` is inlined afterwards.
pub proof fn law_inlining_appends(sources: Seq<Seq<char>>, s: PreludeView, names: Seq<Seq<char>>)
    ensures
        ({
            let t = load_modules_steps(sources, s, names);
            &&& t.loaded.subrange(0, s.loaded.len() as int) == s.loaded
            &&& s.loaded.len() <= t.loaded.len()
            &&& t.prelude.subrange(0, s.prelude.len() as int) == s.prelude
            &&& s.prelude.len() <= t.prelude.len()
            &&& t.namedtuple_loaded == s.namedtuple_loaded
            &&& forall|i: int| 0 <= i < names.len() ==> t.loaded.contains(#[trigger] names[i])
            &&& forall|x: Seq<char>| #[trigger] t.loaded.contains(x) ==> s.loaded.contains(x)
                || names.contains(x)
        }),
    decreases names.len(),
{
    if names.len() > 0 {
        let prev = names.drop_last();
        law_inlining_appends(sources, s, prev);
        let m = load_modules_steps(sources, s, prev);
        let t = load_modules_steps(sources, s, names);
        let n = names.last();
        if !m.loaded.contains(n) {
            assert(t.loaded == m.loaded.push(n));
            assert(t.loaded.subrange(0, s.loaded.len() as int) =~= m.loaded.subrange(
                0,
                s.loaded.len() as int,
            ));
            assert(t.prelude.subrange(0, s.prelude.len() as int) =~= m.prelude.subrange(
                0,
                s.prelude.len() as int,
            ));
            assert(t.loaded[m.loaded.len() as int] == n);
        }
        assert forall|i: int| 0 <= i < names.len() implies t.loaded.contains(#[trigger] names[i]) by {
            if i < prev.len() {
                assert(prev[i] == names[i]);
                assert(m.loaded.contains(prev[i]));
                let k = choose|k: int| 0 <= k < m.loaded.len() && m.loaded[k] == prev[i];
                if !m.loaded.contains(n) {
                    assert(t.loaded[k] == names[i]);
                }
            } else if !m.loaded.contains(n) {
                assert(t.loaded[m.loaded.len() as int] == n);
            }
        }
        assert forall|x: Seq<char>| #[trigger] t.loaded.contains(x) implies s.loaded.contains(x)
            || names.contains(x) by {
            if m.loaded.contains(x) {
                if !s.loaded.contains(x) {
                    assert(prev.contains(x));
                    let k = choose|k: int| 0 <= k < prev.len() && prev[k] == x;
                    assert(names[k] == x);
                }
            } else {
                let k = choose|k: int| 0 <= k < t.loaded.len() && t.loaded[k] == x;
                assert(k == m.loaded.len());
                assert(names[names.len() - 1] == x);
            }
        }
    }
}

/// No core module is inlined twice: from a prelude without repetitions,
/// inlining any modules leaves one without repetitions.
pub proof fn law_each_module_is_inlined_once(
    sources: Seq<Seq<char>>,
    s: PreludeView,
    names: Seq<Seq<char>>,
)
    requires
        s.loaded.no_duplicates(),
    ensures
        load_modules_steps(sources, s, names).loaded.no_duplicates(),
    decreases names.len(),
{
    if names.len() > 0 {
        law_each_module_is_inlined_once(sources, s, names.drop_last());
        let m = load_modules_steps(sources, s, names.drop_last());
        let n = names.last();
        if !m.loaded.contains(n) {
            let t = m.loaded.push(n);
            assert forall|i: int, j: int| 0 <= i < t.len() && 0 <= j < t.len() && i != j implies t[i]
                != t[j] by {
                if i < m.loaded.len() && j < m.loaded.len() {
                } else if i == m.loaded.len() {
                    assert(m.loaded[j] != n);
                } else {
                    assert(m.loaded[i] != n);
                }
            }
        }
    }
}

/// Loading the same modules again changes nothing: a feature's modules
/// are inlined the first time it is used, and only then.
pub proof fn law_loading_again_changes_nothing(
    sources: Seq<Seq<char>>,
    s: PreludeView,
    names: Seq<Seq<char>>,
)
    ensures
        load_modules_steps(sources, load_modules_steps(sources, s, names), names)
            == load_modules_steps(sources, s, names),
{
    let t = load_modules_steps(sources, s, names);
    law_inlining_appends(sources, s, names);
    lemma_loading_loaded_modules(sources, t, names);
}

proof fn lemma_loading_loaded_modules(
    sources: Seq<Seq<char>>,
    t: PreludeView,
    names: Seq<Seq<char>>,
)
    requires
        forall|i: int| 0 <= i < names.len() ==> t.loaded.contains(#[trigger] names[i]),
    ensures
        load_modules_steps(sources, t, names) == t,
    decreases names.len(),
{
    if names.len() > 0 {
        let prev = names.drop_last();
        assert forall|i: int| 0 <= i < prev.len() implies t.loaded.contains(#[trigger] prev[i]) by {
            assert(prev[i] == names[i]);
        }
        lemma_loading_loaded_modules(sources, t, prev);
        assert(t.loaded.contains(names[names.len() - 1]));
    }
}

} // verus!
