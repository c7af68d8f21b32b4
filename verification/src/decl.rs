//! The lock declaration section of the `threads!` DSL:
//! `{locks = {a(0), b(String::new()), ...}}`.
//!
//! The section is recognised and taken apart with three regular expressions
//! (run by the `regex` crate): one that finds the section and captures the
//! list between its inner braces, one that captures the initial value between
//! the parentheses of an entry, and one that captures the identifier before
//! them. The list is split at commas and each entry trimmed.
use vstd::prelude::*;
use vstd::string::*;

verus! {

#[verifier::external_type_specification]
#[verifier::external_body]
pub struct ExRegex(regex::Regex);

#[verifier::external_type_specification]
#[verifier::external_body]
pub struct ExRegexError(regex::Error);

/// Whether `regex::Regex::new` accepts `pattern`.
pub uninterp spec fn regex_compiles(pattern: Seq<char>) -> bool;

/// What the regular expression `pattern` captures in `haystack`: `None` when
/// it does not match, otherwise the text of capture group 1, if that group
/// took part in the match.
pub uninterp spec fn regex_group1(pattern: Seq<char>, haystack: Seq<char>) -> Option<
    Option<Seq<char>>,
>;

/// Whether `c` has the Unicode property `White_Space`, by which `str::trim`
/// and `char::is_whitespace` go.
pub open spec fn is_white_space(c: char) -> bool {
    let n = c as int;
    ||| 0x9 <= n <= 0xd
    ||| n == 0x20 || n == 0x85 || n == 0xa0 || n == 0x1680
    ||| 0x2000 <= n <= 0x200a
    ||| n == 0x2028 || n == 0x2029 || n == 0x202f || n == 0x205f || n == 0x3000
}

/// `s` without its leading and trailing white space.
pub open spec fn trimmed(s: Seq<char>) -> Seq<char>
    decreases s.len(),
{
    if s.len() > 0 && is_white_space(s[0]) {
        trimmed(s.drop_first())
    } else if s.len() > 0 && is_white_space(s.last()) {
        trimmed(s.drop_last())
    } else {
        s
    }
}

/// A compiled regular expression, with the pattern it was compiled from.
pub struct CompiledPattern {
    regex: regex::Regex,
    source: String,
}

impl CompiledPattern {
    /// The pattern this regular expression was compiled from.
    pub closed spec fn source(&self) -> Seq<char> {
        self.source@
    }
}

/// Compiles `pattern` (`regex::Regex::new`); succeeds exactly when the
/// pattern is accepted, and remembers the pattern.
#[verifier::external_body]
fn compile_pattern(pattern: &str) -> (r: Result<CompiledPattern, regex::Error>)
    ensures
        r is Ok <==> regex_compiles(pattern@),
        r matches Ok(p) ==> p.source() == pattern@,
{
    match regex::Regex::new(pattern) {
        Ok(re) => Ok(CompiledPattern { regex: re, source: pattern.to_string() }),
        Err(e) => Err(e),
    }
}

/// The value of an optional captured text.
pub open spec fn capture_view(r: Option<Option<String>>) -> Option<Option<Seq<char>>> {
    match r {
        None => None,
        Some(None) => Some(None),
        Some(Some(s)) => Some(Some(s@)),
    }
}

/// Runs the regular expression on `haystack` (`regex::Regex::captures`,
/// then `regex::Captures::get(1)`); the result is `regex_group1` of the
/// pattern and the haystack.
#[verifier::external_body]
fn captures_group1(p: &CompiledPattern, haystack: &str) -> (r: Option<Option<String>>)
    ensures
        capture_view(r) == regex_group1(p.source(), haystack@),
{
    match p.regex.captures(haystack) {
        None => None,
        Some(caps) => match caps.get(1) {
            Some(m) => Some(Some(m.as_str().to_string())),
            None => Some(None),
        },
    }
}

/// Removes leading and trailing whitespace (`str::trim`, whose
/// documentation defines whitespace as the characters with the Unicode
/// property `White_Space`).
#[verifier::external_body]
fn trim(s: &str) -> (r: String)
    ensures
        r@ == trimmed(s@),
{
    s.trim().to_string()
}

/// The pattern that finds a lock declaration section and captures its list.
pub open spec fn section_pattern() -> Seq<char> {
    "\\{\\s*locks\\s*=\\s*\\{(.*?)\\}"@
}

/// The pattern that captures the initial value of a declaration.
pub open spec fn data_pattern() -> Seq<char> {
    "\\((.*?)\\)"@
}

/// The pattern that captures the identifier of a declaration.
pub open spec fn identifier_pattern() -> Seq<char> {
    "(.*?)\\s*\\("@
}

/// Why a lock declaration section is refused.
#[derive(Debug, PartialEq, Eq)]
pub enum DeclError {
    /// One of the regular expressions could not be compiled.
    InvalidPattern,
    /// An entry is empty or has no `( .. )` part.
    MalformedDeclaration,
    /// The identifier pattern found nothing in an entry.
    MissingIdentifier,
}

/// The three compiled regular expressions of the declaration syntax.
pub struct DeclPatterns {
    section: CompiledPattern,
    data: CompiledPattern,
    identifier: CompiledPattern,
}

impl DeclPatterns {
    /// Whether the three regular expressions are the ones of the declaration syntax.
    pub closed spec fn wf(&self) -> bool {
        &&& self.section.source() == section_pattern()
        &&& self.data.source() == data_pattern()
        &&& self.identifier.source() == identifier_pattern()
    }

    /// Compiles the three regular expressions; fails exactly when one of
    /// them is refused.
    pub fn new() -> (r: Result<DeclPatterns, DeclError>)
        ensures
            r is Ok <==> (regex_compiles(section_pattern()) && regex_compiles(data_pattern())
                && regex_compiles(identifier_pattern())),
            r matches Ok(p) ==> p.wf(),
            r matches Err(e) ==> e == DeclError::InvalidPattern,
    {
        let section = match compile_pattern("\\{\\s*locks\\s*=\\s*\\{(.*?)\\}") {
            Ok(p) => p,
            Err(_) => return Err(DeclError::InvalidPattern),
        };
        let data = match compile_pattern("\\((.*?)\\)") {
            Ok(p) => p,
            Err(_) => return Err(DeclError::InvalidPattern),
        };
        let identifier = match compile_pattern("(.*?)\\s*\\(") {
            Ok(p) => p,
            Err(_) => return Err(DeclError::InvalidPattern),
        };
        Ok(DeclPatterns { section, data, identifier })
    }
}

/// `s` split at every comma, as `str::split(",")` does: one piece more than
/// there are commas, pieces possibly empty.
pub open spec fn split_commas(s: Seq<char>) -> Seq<Seq<char>>
    decreases s.len(),
{
    if s.len() == 0 {
        seq![Seq::empty()]
    } else {
        let prev = split_commas(s.drop_last());
        if s.last() == ',' {
            prev.push(Seq::empty())
        } else {
            prev.update(prev.len() - 1, prev.last().push(s.last()))
        }
    }
}

/// `split_commas` never yields an empty list.
pub proof fn lemma_split_nonempty(s: Seq<char>)
    ensures
        split_commas(s).len() >= 1,
    decreases s.len(),
{
    if s.len() > 0 {
        lemma_split_nonempty(s.drop_last());
    }
}

/// The pieces joined back together with a comma between neighbours.
pub open spec fn join_commas(pieces: Seq<Seq<char>>) -> Seq<char>
    decreases pieces.len(),
{
    if pieces.len() == 0 {
        Seq::empty()
    } else if pieces.len() == 1 {
        pieces[0]
    } else {
        join_commas(pieces.drop_last()) + seq![','] + pieces.last()
    }
}

/// Extending the last piece by `c` extends the joined text by `c`.
proof fn lemma_join_extend_last(p: Seq<Seq<char>>, c: char)
    requires
        p.len() >= 1,
    ensures
        join_commas(p.update(p.len() - 1, p.last().push(c))) == join_commas(p).push(c),
{
    let q = p.update(p.len() - 1, p.last().push(c));
    if p.len() > 1 {
        assert(q.drop_last() =~= p.drop_last());
    }
    assert(join_commas(q) =~= join_commas(p).push(c));
}

/// Splitting at commas loses nothing: joining the pieces with commas gives
/// the text back, and no piece holds a comma.
pub proof fn lemma_split_join(s: Seq<char>)
    ensures
        join_commas(split_commas(s)) == s,
        forall|i: int| 0 <= i < split_commas(s).len() ==> !(#[trigger] split_commas(s)[i]).contains(','),
    decreases s.len(),
{
    if s.len() == 0 {
        assert(join_commas(split_commas(s)) =~= s);
        assert(!Seq::<char>::empty().contains(','));
    } else {
        let prev = split_commas(s.drop_last());
        lemma_split_join(s.drop_last());
        lemma_split_nonempty(s.drop_last());
        if s.last() == ',' {
            let r = prev.push(Seq::empty());
            assert(r.drop_last() =~= prev);
            assert(join_commas(r) =~= s);
            assert forall|i: int| 0 <= i < r.len() implies !(#[trigger] r[i]).contains(',') by {
                if i == r.len() - 1 {
                    assert(r[i] =~= Seq::<char>::empty());
                } else {
                    assert(r[i] == prev[i]);
                }
            }
        } else {
            lemma_join_extend_last(prev, s.last());
            assert(join_commas(prev).push(s.last()) =~= s);
            let r = prev.update(prev.len() - 1, prev.last().push(s.last()));
            assert forall|i: int| 0 <= i < r.len() implies !(#[trigger] r[i]).contains(',') by {
                if i == r.len() - 1 {
                    assert(!prev[i].contains(','));
                    if r[i].contains(',') {
                        let j = choose|j: int| 0 <= j < r[i].len() && r[i][j] == ',';
                        if j < prev[i].len() {
                            assert(prev[i][j] == ',');
                        }
                    }
                } else {
                    assert(r[i] == prev[i]);
                }
            }
        }
    }
}

/// Splits `s` at every comma.
pub fn split_at_commas(s: &str) -> (r: Vec<String>)
    ensures
        r.deep_view() == split_commas(s@),
{
    let n = s.unicode_len();
    let mut pieces: Vec<String> = Vec::new();
    let mut start: usize = 0;
    assert(split_commas(s@.take(0)) =~= seq![Seq::<char>::empty()]);
    assert(pieces.deep_view() =~= Seq::<Seq<char>>::empty());
    assert(s@.subrange(0, 0) =~= Seq::<char>::empty());
    for i in 0..n
        invariant
            n == s@.len(),
            start <= i,
            pieces.deep_view() + seq![s@.subrange(start as int, i as int)] =~= split_commas(
                s@.take(i as int),
            ),
    {
        proof {
            lemma_split_nonempty(s@.take(i as int));
        }
        let c = s.get_char(i);
        assert(s@.take(i + 1).drop_last() =~= s@.take(i as int));
        assert(s@.take(i + 1).last() == c);
        if c == ',' {
            let piece = String::from_str(s.substring_char(start, i));
            let ghost prev = pieces.deep_view();
            pieces.push(piece);
            assert(pieces.deep_view() =~= prev.push(s@.subrange(start as int, i as int)));
            start = i + 1;
            assert(s@.subrange(start as int, (i + 1) as int) =~= Seq::<char>::empty());
        } else {
            assert(s@.subrange(start as int, i + 1) =~= s@.subrange(start as int, i as int).push(c));
        }
    }
    let last = String::from_str(s.substring_char(start, n));
    let ghost prev = pieces.deep_view();
    pieces.push(last);
    assert(pieces.deep_view() =~= prev.push(s@.subrange(start as int, n as int)));
    assert(s@.take(n as int) =~= s@);
    pieces
}

/// One declared lock: its identifier and the text of its initial value.
#[derive(Debug, PartialEq, Eq)]
pub struct LockDecl {
    pub name: String,
    pub init: String,
}

/// The value of an optional capture, with the empty text for a group that
/// took no part in the match.
pub open spec fn text_or_empty(g: Option<Seq<char>>) -> Seq<char> {
    match g {
        Some(t) => t,
        None => Seq::empty(),
    }
}

/// The declaration one entry of the list stands for, as `(name, init)`, or
/// why it is refused.
pub open spec fn entry_decl(piece: Seq<char>) -> Result<(Seq<char>, Seq<char>), DeclError> {
    let t = trimmed(piece);
    match regex_group1(data_pattern(), t) {
        Some(d) => if t.len() == 0 {
            Err(DeclError::MalformedDeclaration)
        } else {
            match regex_group1(identifier_pattern(), t) {
                Some(id) => Ok((text_or_empty(id), text_or_empty(d))),
                None => Err(DeclError::MissingIdentifier),
            }
        },
        None => Err(DeclError::MalformedDeclaration),
    }
}

/// The declarations of the first `n` entries, or the error of the first
/// refused one.
pub open spec fn entries_decls(pieces: Seq<Seq<char>>, n: int) -> Result<
    Seq<(Seq<char>, Seq<char>)>,
    DeclError,
>
    decreases n,
{
    if n <= 0 || n > pieces.len() {
        Ok(Seq::empty())
    } else {
        match entries_decls(pieces, n - 1) {
            Err(e) => Err(e),
            Ok(prev) => match entry_decl(pieces[n - 1]) {
                Err(e) => Err(e),
                Ok(d) => Ok(prev.push(d)),
            },
        }
    }
}

/// What the declaration section parser returns for the text of one macro
/// argument: `None` when it is no declaration section, otherwise the
/// declarations in the order written.
pub open spec fn section_decls(arg: Seq<char>) -> Result<
    Option<Seq<(Seq<char>, Seq<char>)>>,
    DeclError,
> {
    match regex_group1(section_pattern(), arg) {
        None => Ok(None),
        Some(list) => {
            let pieces = split_commas(text_or_empty(list));
            match entries_decls(pieces, pieces.len() as int) {
                Err(e) => Err(e),
                Ok(d) => Ok(Some(d)),
            }
        },
    }
}

/// The value of a list of declarations.
pub open spec fn decls_view(v: Vec<LockDecl>) -> Seq<(Seq<char>, Seq<char>)> {
    v@.map_values(|d: LockDecl| (d.name@, d.init@))
}

/// The value of a parse result.
pub open spec fn parse_view(r: Result<Option<Vec<LockDecl>>, DeclError>) -> Result<
    Option<Seq<(Seq<char>, Seq<char>)>>,
    DeclError,
> {
    match r {
        Ok(None) => Ok(None),
        Ok(Some(v)) => Ok(Some(decls_view(v))),
        Err(e) => Err(e),
    }
}

proof fn lemma_entries_err_persists(pieces: Seq<Seq<char>>, k: int, n: int)
    requires
        0 < k <= n <= pieces.len(),
        entries_decls(pieces, k) is Err,
    ensures
        entries_decls(pieces, n) == entries_decls(pieces, k),
    decreases n - k,
{
    if n > k {
        lemma_entries_err_persists(pieces, k, n - 1);
    }
}

/// The first `n` entries, one declaration each, in order: the result is
/// `Ok` exactly when each of them is, then with one declaration per entry,
/// and otherwise the error of one of them.
proof fn lemma_entries_one_per_piece(pieces: Seq<Seq<char>>, n: int)
    requires
        0 <= n <= pieces.len(),
    ensures
        entries_decls(pieces, n) matches Ok(d) ==> d.len() == n && forall|i: int|
            0 <= i < n ==> #[trigger] entry_decl(pieces[i]) == Ok::<
                (Seq<char>, Seq<char>),
                DeclError,
            >(d[i]),
        (forall|i: int| 0 <= i < n ==> #[trigger] entry_decl(pieces[i]) is Ok) ==> entries_decls(
            pieces,
            n,
        ) is Ok,
        entries_decls(pieces, n) matches Err(e) ==> exists|i: int|
            0 <= i < n && #[trigger] entry_decl(pieces[i]) == Err::<
                (Seq<char>, Seq<char>),
                DeclError,
            >(e),
    decreases n,
{
    if n > 0 {
        lemma_entries_one_per_piece(pieces, n - 1);
        if let Ok(d) = entries_decls(pieces, n) {
            let prev = entries_decls(pieces, n - 1)->Ok_0;
            assert forall|i: int| 0 <= i < n implies #[trigger] entry_decl(pieces[i]) == Ok::<
                (Seq<char>, Seq<char>),
                DeclError,
            >(d[i]) by {
                if i < n - 1 {
                    assert(d[i] == prev[i]);
                }
            }
        }
    }
}

/// One declaration per entry: when the argument is a declaration section,
/// its list is split at commas, and the section is accepted exactly when
/// every entry is a valid declaration; then the declarations are those of
/// the entries, one for one and in order, and otherwise the error is that
/// of a refused entry. An argument that is no section gives `None`.
pub proof fn lemma_one_declaration_per_entry(arg: Seq<char>)
    ensures
        match regex_group1(section_pattern(), arg) {
            None => section_decls(arg) == Ok::<Option<Seq<(Seq<char>, Seq<char>)>>, DeclError>(
                None,
            ),
            Some(list) => {
                let pieces = split_commas(text_or_empty(list));
                &&& section_decls(arg) matches Ok(Some(d)) ==> d.len() == pieces.len() && forall|
                    i: int,
                | 0 <= i < pieces.len() ==> #[trigger] entry_decl(pieces[i]) == Ok::<
                    (Seq<char>, Seq<char>),
                    DeclError,
                >(d[i])
                &&& (forall|i: int| 0 <= i < pieces.len() ==> #[trigger] entry_decl(pieces[i]) is Ok)
                    ==> section_decls(arg) is Ok
                &&& section_decls(arg) matches Err(e) ==> exists|i: int|
                    0 <= i < pieces.len() && #[trigger] entry_decl(pieces[i]) == Err::<
                        (Seq<char>, Seq<char>),
                        DeclError,
                    >(e)
                &&& section_decls(arg) != Ok::<Option<Seq<(Seq<char>, Seq<char>)>>, DeclError>(None)
            },
        },
{
    if let Some(list) = regex_group1(section_pattern(), arg) {
        let pieces = split_commas(text_or_empty(list));
        lemma_entries_one_per_piece(pieces, pieces.len() as int);
    }
}

/// The text of a capture group, or the empty text if the group took no part.
fn text_of(g: Option<String>) -> (r: String)
    ensures
        r@ == text_or_empty(match g {
            Some(s) => Some(s@),
            None => None,
        }),
{
    match g {
        Some(s) => s,
        None => String::new(),
    }
}

/// Parses the text of one macro argument as a lock declaration section.
///
/// Returns `Ok(None)` when the argument is no declaration section, and
/// otherwise the declarations in the order written, or the error of the first
/// malformed entry.
#[verifier::loop_isolation(false)]
pub fn parse_lock_decls(patterns: &DeclPatterns, arg: &str) -> (r: Result<
    Option<Vec<LockDecl>>,
    DeclError,
>)
    requires
        patterns.wf(),
    ensures
        parse_view(r) == section_decls(arg@),
{
    let list = match captures_group1(&patterns.section, arg) {
        None => return Ok(None),
        Some(g) => text_of(g),
    };
    let pieces = split_at_commas(list.as_str());
    let ghost pv = pieces.deep_view();
    let mut decls: Vec<LockDecl> = Vec::new();
    let n = pieces.len();
    assert(decls_view(decls) =~= Seq::<(Seq<char>, Seq<char>)>::empty());
    for i in 0..n
        invariant
            n == pieces.len(),
            pv == pieces.deep_view(),
            pv == split_commas(list@),
            patterns.wf(),
            entries_decls(pv, i as int) == Ok::<Seq<(Seq<char>, Seq<char>)>, DeclError>(
                decls_view(decls),
            ),
    {
        let t = trim(pieces[i].as_str());
        assert(pieces@[i as int]@ == pv[i as int]);
        let data = captures_group1(&patterns.data, t.as_str());
        proof {
            reveal_strlit("");
        }
        let t_empty = t.as_str().unicode_len() == 0;
        let valid = match &data {
            Some(_) => !t_empty,
            None => false,
        };
        if !valid {
            proof {
                lemma_entries_err_persists(pv, i + 1, n as int);
            }
            return Err(DeclError::MalformedDeclaration);
        }
        let init = match data {
            Some(g) => text_of(g),
            None => String::new(),
        };
        let name = match captures_group1(&patterns.identifier, t.as_str()) {
            Some(g) => text_of(g),
            None => {
                proof {
                    lemma_entries_err_persists(pv, i + 1, n as int);
                }
                return Err(DeclError::MissingIdentifier);
            },
        };
        let ghost prev = decls_view(decls);
        decls.push(LockDecl { name, init });
        assert(decls_view(decls) =~= prev.push((name@, init@)));
    }
    Ok(Some(decls))
}

} // verus!
