//! The line protocol: a client sends one command per line, `SET <key> <value>`,
//! `GET <key>` or `DELETE <key>`, with the command name matched without regard
//! to ASCII case.
use vstd::prelude::*;
use vstd::string::StringExecFns;

verus! {

broadcast use vstd::string::group_string_axioms;

/// A command of the line protocol.
#[derive(Debug, Clone, PartialEq)]
pub enum Command {
    Put(String, String),
    Get(String),
    Delete(String),
}

/// Why a line is not a command. The first two carry the usage line of the
/// command that was being parsed.
#[derive(Debug, Clone, PartialEq)]
pub enum ParseError {
    MissingKey(&'static str),
    MissingValue(&'static str),
    ExtraArgument(String),
    UnknownCommand(String),
}

/// A command over the characters of its arguments.
pub enum CommandView {
    Put(Seq<char>, Seq<char>),
    Get(Seq<char>),
    Delete(Seq<char>),
}

/// A parse error over the characters it carries.
pub enum ParseErrorView {
    MissingKey(Seq<char>),
    MissingValue(Seq<char>),
    ExtraArgument(Seq<char>),
    UnknownCommand(Seq<char>),
}

impl View for Command {
    type V = CommandView;

    open spec fn view(&self) -> CommandView {
        match self {
            Command::Put(k, v) => CommandView::Put(k@, v@),
            Command::Get(k) => CommandView::Get(k@),
            Command::Delete(k) => CommandView::Delete(k@),
        }
    }
}

impl View for ParseError {
    type V = ParseErrorView;

    open spec fn view(&self) -> ParseErrorView {
        match self {
            ParseError::MissingKey(u) => ParseErrorView::MissingKey(u@),
            ParseError::MissingValue(u) => ParseErrorView::MissingValue(u@),
            ParseError::ExtraArgument(a) => ParseErrorView::ExtraArgument(a@),
            ParseError::UnknownCommand(c) => ParseErrorView::UnknownCommand(c@),
        }
    }
}

pub const SET_COMMAND_USAGE: &'static str = "SET <key> <value>";

pub const GET_COMMAND_USAGE: &'static str = "GET <key>";

pub const DELETE_COMMAND_USAGE: &'static str = "DELETE <key>";

/// Whether `c` has the Unicode White_Space property, as Unicode's PropList.txt
/// lists it: tab through carriage return, space, next line, no-break space,
/// ogham space mark, the spaces U+2000 to U+200A, the line and paragraph
/// separators, narrow no-break space, medium mathematical space and
/// ideographic space.
pub open spec fn white_space(c: char) -> bool {
    let u = c as u32;
    ||| 0x09 <= u <= 0x0D
    ||| u == 0x20
    ||| u == 0x85
    ||| u == 0xA0
    ||| u == 0x1680
    ||| 0x2000 <= u <= 0x200A
    ||| u == 0x2028
    ||| u == 0x2029
    ||| u == 0x202F
    ||| u == 0x205F
    ||| u == 0x3000
}

/// `char::is_whitespace` (std): documented as true exactly for the characters
/// with the White_Space property of Unicode's PropList.txt, the set that
/// `white_space` lists.
#[verifier::external_body]
fn is_whitespace(c: char) -> (b: bool)
    ensures
        b == white_space(c),
{
    c.is_whitespace()
}

/// The ASCII lower-case form of a character: `'A'..='Z'` become `'a'..='z'`,
/// every other character stays.
pub open spec fn ascii_lower(c: char) -> char {
    if 'A' <= c && c <= 'Z' {
        ((c as u32) + 32) as char
    } else {
        c
    }
}

/// Two strings match without regard to ASCII case.
pub open spec fn ascii_case_eq(a: Seq<char>, b: Seq<char>) -> bool {
    a.map_values(|c: char| ascii_lower(c)) == b.map_values(|c: char| ascii_lower(c))
}

/// `str::eq_ignore_ascii_case` (std): documented as the same as comparing the
/// ASCII lower-case forms of the two strings.
#[verifier::external_body]
fn eq_ignore_ascii_case(a: &str, b: &str) -> (r: bool)
    ensures
        r == ascii_case_eq(a@, b@),
{
    a.eq_ignore_ascii_case(b)
}

/// Number of white-space characters at the front of `s`.
pub open spec fn leading_space(s: Seq<char>) -> nat
    decreases s.len(),
{
    if s.len() > 0 && white_space(s[0]) {
        1 + leading_space(s.drop_first())
    } else {
        0
    }
}

/// Number of other characters at the front of `s`.
pub open spec fn leading_word(s: Seq<char>) -> nat
    decreases s.len(),
{
    if s.len() > 0 && !white_space(s[0]) {
        1 + leading_word(s.drop_first())
    } else {
        0
    }
}

/// `s` without its leading white space.
pub open spec fn trim_start(s: Seq<char>) -> Seq<char> {
    s.skip(leading_space(s) as int)
}

/// The first word of `s` and what follows it, with the white space before
/// each of them dropped.
pub open spec fn spec_split_word(s: Seq<char>) -> (Seq<char>, Seq<char>) {
    let t = trim_start(s);
    let n = leading_word(t) as int;
    (t.take(n), trim_start(t.skip(n)))
}

/// What `parse` gives for a line.
pub open spec fn spec_parse(input: Seq<char>) -> Result<CommandView, ParseErrorView> {
    let (cmd, rest) = spec_split_word(input);
    if ascii_case_eq(cmd, "SET"@) {
        let (key, value) = spec_split_word(rest);
        if key.len() == 0 {
            Err(ParseErrorView::MissingKey(SET_COMMAND_USAGE@))
        } else if value.len() == 0 {
            Err(ParseErrorView::MissingValue(SET_COMMAND_USAGE@))
        } else {
            Ok(CommandView::Put(key, value))
        }
    } else if ascii_case_eq(cmd, "GET"@) {
        let (key, extra) = spec_split_word(rest);
        if key.len() == 0 {
            Err(ParseErrorView::MissingKey(GET_COMMAND_USAGE@))
        } else if extra.len() != 0 {
            Err(ParseErrorView::ExtraArgument(extra))
        } else {
            Ok(CommandView::Get(key))
        }
    } else if ascii_case_eq(cmd, "DELETE"@) {
        let (key, extra) = spec_split_word(rest);
        if key.len() == 0 {
            Err(ParseErrorView::MissingKey(DELETE_COMMAND_USAGE@))
        } else if extra.len() != 0 {
            Err(ParseErrorView::ExtraArgument(extra))
        } else {
            Ok(CommandView::Delete(key))
        }
    } else {
        Err(ParseErrorView::UnknownCommand(cmd))
    }
}

/// The view of a parse result.
pub open spec fn parse_result_view(r: Result<Command, ParseError>) -> Result<
    CommandView,
    ParseErrorView,
> {
    match r {
        Ok(c) => Ok(c@),
        Err(e) => Err(e@),
    }
}

/// Collects the characters of `s`, in order.
pub fn chars_of(s: &str) -> (v: Vec<char>)
    ensures
        v@ == s@,
{
    let mut v: Vec<char> = Vec::new();
    for c in it: s.chars()
        invariant
            v@ == it.seq().take(it.index() as int),
    {
        v.push(c);
    }
    v
}

/// If the first `i` characters of `s` are white space and the next is not
/// (or there is none), `s` has `i` leading white-space characters.
proof fn lemma_leading_space(s: Seq<char>, i: int)
    requires
        0 <= i <= s.len(),
        forall|j: int| 0 <= j < i ==> white_space(#[trigger] s[j]),
        i == s.len() || !white_space(s[i]),
    ensures
        leading_space(s) == i,
    decreases i,
{
    if i > 0 {
        let t = s.drop_first();
        assert forall|j: int| 0 <= j < i - 1 implies white_space(#[trigger] t[j]) by {
            assert(t[j] == s[j + 1]);
        }
        if i < s.len() {
            assert(t[i - 1] == s[i]);
        }
        lemma_leading_space(t, i - 1);
    }
}

/// If the first `i` characters of `s` are not white space and the next is
/// (or there is none), the first word of `s` has `i` characters.
proof fn lemma_leading_word(s: Seq<char>, i: int)
    requires
        0 <= i <= s.len(),
        forall|j: int| 0 <= j < i ==> !white_space(#[trigger] s[j]),
        i == s.len() || white_space(s[i]),
    ensures
        leading_word(s) == i,
    decreases i,
{
    if i > 0 {
        let t = s.drop_first();
        assert forall|j: int| 0 <= j < i - 1 implies !white_space(#[trigger] t[j]) by {
            assert(t[j] == s[j + 1]);
        }
        if i < s.len() {
            assert(t[i - 1] == s[i]);
        }
        lemma_leading_word(t, i - 1);
    }
}

/// Index of the first character at or after `from` for which `is_whitespace`
/// gives `space`; `chars.len()` if there is none.
fn scan(chars: &Vec<char>, from: usize, space: bool) -> (end: usize)
    requires
        from <= chars.len(),
    ensures
        from <= end <= chars.len(),
        forall|j: int| from <= j < end ==> white_space(#[trigger] chars@[j]) != space,
        end == chars.len() || white_space(chars@[end as int]) == space,
{
    let mut i = from;
    while i < chars.len() && is_whitespace(chars[i]) != space
        invariant
            from <= i <= chars.len(),
            forall|j: int| from <= j < i ==> white_space(#[trigger] chars@[j]) != space,
        decreases chars.len() - i,
    {
        i += 1;
    }
    i
}

/// Splits off the first word of `s`: the word without the white space before
/// it, and the rest without the white space that follows the word.
pub fn split_word(s: &str) -> (res: (&str, &str))
    ensures
        (res.0@, res.1@) == spec_split_word(s@),
{
    let chars = chars_of(s);
    let n = chars.len();
    let start = scan(&chars, 0, false);
    let end = scan(&chars, start, true);
    let next = scan(&chars, end, false);
    proof {
        let t = s@.skip(start as int);
        lemma_leading_space(s@, start as int);
        assert forall|j: int| 0 <= j < end - start implies !white_space(#[trigger] t[j]) by {
            assert(t[j] == s@[j + start]);
        }
        if end < n {
            assert(t[end - start] == s@[end as int]);
        }
        lemma_leading_word(t, end - start);
        let u = t.skip(end - start);
        assert(u =~= s@.skip(end as int));
        assert forall|j: int| 0 <= j < next - end implies white_space(#[trigger] u[j]) by {
            assert(u[j] == s@[j + end]);
        }
        if next < n {
            assert(u[next - end] == s@[next as int]);
        }
        lemma_leading_space(u, next - end);
        assert(t.take(end - start) =~= s@.subrange(start as int, end as int));
        assert(u.skip(next - end) =~= s@.subrange(next as int, n as int));
    }
    (s.substring_char(start, end), s.substring_char(next, n))
}

/// Number of white-space characters at the end of `s`.
pub open spec fn trailing_space(s: Seq<char>) -> nat
    decreases s.len(),
{
    if s.len() > 0 && white_space(s.last()) {
        1 + trailing_space(s.drop_last())
    } else {
        0
    }
}

/// If the last `i` characters of `s` are white space and the one before is
/// not (or there is none), `s` has `i` trailing white-space characters.
proof fn lemma_trailing_space(s: Seq<char>, i: int)
    requires
        0 <= i <= s.len(),
        forall|j: int| s.len() - i <= j < s.len() ==> white_space(#[trigger] s[j]),
        i == s.len() || !white_space(s[s.len() - i - 1]),
    ensures
        trailing_space(s) == i,
    decreases i,
{
    if i > 0 {
        let t = s.drop_last();
        assert forall|j: int| t.len() - (i - 1) <= j < t.len() implies white_space(#[trigger] t[j]) by {
            assert(t[j] == s[j]);
        }
        if i < s.len() {
            assert(t[t.len() - (i - 1) - 1] == s[s.len() - i - 1]);
        }
        lemma_trailing_space(t, i - 1);
    }
}

/// `s` without its trailing white space, as the server reads a line.
pub fn trim_end(s: &str) -> (res: &str)
    ensures
        res@ == s@.take(s@.len() - trailing_space(s@)),
{
    let chars = chars_of(s);
    let mut end = chars.len();
    while end > 0 && is_whitespace(chars[end - 1])
        invariant
            end <= chars.len(),
            chars@ == s@,
            forall|j: int| end <= j < chars.len() ==> white_space(#[trigger] chars@[j]),
        decreases end,
    {
        end -= 1;
    }
    proof {
        lemma_trailing_space(s@, chars.len() - end);
        assert(s@.take(end as int) =~= s@.subrange(0, end as int));
    }
    s.substring_char(0, end)
}

/// What the server answers to a line that is not a command.
pub open spec fn parse_error_message(e: ParseErrorView) -> Seq<char> {
    match e {
        ParseErrorView::MissingKey(u) => "error: missing key\n\nUsage: "@ + u,
        ParseErrorView::MissingValue(u) => "error: missing value\n\nUsage: "@ + u,
        ParseErrorView::ExtraArgument(a) => "error: extra argument '"@ + a + "'"@,
        ParseErrorView::UnknownCommand(c) => "error: unknown command '"@ + c + "'"@,
    }
}

impl ParseError {
    /// The text of this error, as the server answers it.
    pub fn message(&self) -> (m: String)
        ensures
            m@ == parse_error_message(self@),
    {
        match self {
            ParseError::MissingKey(u) => {
                let mut m = String::from_str("error: missing key\n\nUsage: ");
                m.append(u);
                m
            },
            ParseError::MissingValue(u) => {
                let mut m = String::from_str("error: missing value\n\nUsage: ");
                m.append(u);
                m
            },
            ParseError::ExtraArgument(a) => {
                let mut m = String::from_str("error: extra argument '");
                m.append(a.as_str());
                m.append("'");
                m
            },
            ParseError::UnknownCommand(c) => {
                let mut m = String::from_str("error: unknown command '");
                m.append(c.as_str());
                m.append("'");
                m
            },
        }
    }
}

/// Parses one line of the protocol.
pub fn parse(input: &str) -> (res: Result<Command, ParseError>)
    ensures
        parse_result_view(res) == spec_parse(input@),
{
    let (cmd, rest) = split_word(input);
    if eq_ignore_ascii_case(cmd, "SET") {
        let (key, value) = split_word(rest);
        if key.is_empty() {
            return Err(ParseError::MissingKey(SET_COMMAND_USAGE));
        }
        if value.is_empty() {
            return Err(ParseError::MissingValue(SET_COMMAND_USAGE));
        }
        Ok(Command::Put(key.to_owned(), value.to_owned()))
    } else if eq_ignore_ascii_case(cmd, "GET") {
        let (key, extra) = split_word(rest);
        if key.is_empty() {
            return Err(ParseError::MissingKey(GET_COMMAND_USAGE));
        }
        if !extra.is_empty() {
            return Err(ParseError::ExtraArgument(extra.to_owned()));
        }
        Ok(Command::Get(key.to_owned()))
    } else if eq_ignore_ascii_case(cmd, "DELETE") {
        let (key, extra) = split_word(rest);
        if key.is_empty() {
            return Err(ParseError::MissingKey(DELETE_COMMAND_USAGE));
        }
        if !extra.is_empty() {
            return Err(ParseError::ExtraArgument(extra.to_owned()));
        }
        Ok(Command::Delete(key.to_owned()))
    } else {
        Err(ParseError::UnknownCommand(cmd.to_owned()))
    }
}

// ---------------------------------------------------------------------------
// Laws
proof fn lemma_leading_space_facts(s: Seq<char>)
    ensures
        leading_space(s) <= s.len(),
        forall|j: int| 0 <= j < leading_space(s) ==> white_space(#[trigger] s[j]),
        leading_space(s) < s.len() ==> !white_space(s[leading_space(s) as int]),
    decreases s.len(),
{
    if s.len() > 0 && white_space(s[0]) {
        let t = s.drop_first();
        lemma_leading_space_facts(t);
        assert forall|j: int| 0 <= j < leading_space(s) implies white_space(#[trigger] s[j]) by {
            if j > 0 {
                assert(s[j] == t[j - 1]);
            }
        }
    }
}

proof fn lemma_leading_word_facts(s: Seq<char>)
    ensures
        leading_word(s) <= s.len(),
        forall|j: int| 0 <= j < leading_word(s) ==> !white_space(#[trigger] s[j]),
        leading_word(s) < s.len() ==> white_space(s[leading_word(s) as int]),
    decreases s.len(),
{
    if s.len() > 0 && !white_space(s[0]) {
        let t = s.drop_first();
        lemma_leading_word_facts(t);
        assert forall|j: int| 0 <= j < leading_word(s) implies !white_space(#[trigger] s[j]) by {
            if j > 0 {
                assert(s[j] == t[j - 1]);
            }
        }
    }
}

/// The first word holds no white space; what follows it does not start with
/// white space; and where there is no word there is nothing after it.
pub proof fn lemma_split_word_shape(s: Seq<char>)
    ensures
        forall|j: int|
            0 <= j < spec_split_word(s).0.len() ==> !white_space(#[trigger] spec_split_word(s).0[j]),
        spec_split_word(s).1.len() > 0 ==> !white_space(spec_split_word(s).1[0]),
        spec_split_word(s).0.len() == 0 ==> spec_split_word(s).1.len() == 0,
{
    let t = trim_start(s);
    lemma_leading_space_facts(s);
    lemma_leading_word_facts(t);
    let n = leading_word(t) as int;
    let u = t.skip(n);
    lemma_leading_space_facts(u);
    let (w, r) = spec_split_word(s);
    assert forall|j: int| 0 <= j < w.len() implies !white_space(#[trigger] w[j]) by {
        assert(w[j] == t[j]);
    }
    if r.len() > 0 {
        assert(r[0] == u[leading_space(u) as int]);
    }
    if w.len() == 0 {
        if t.len() > 0 {
            assert(t[0] == s[leading_space(s) as int]);
        }
        assert(t.len() == 0);
        assert(r.len() == 0);
    }
}

/// What a parsed command holds: keys and values are not empty, keys hold no
/// white space, and a value does not start with white space (it runs to the
/// end of the line, white space inside it included).
pub proof fn lemma_parsed_arguments(input: Seq<char>)
    ensures
        spec_parse(input) matches Ok(CommandView::Put(k, v)) ==> {
            &&& k.len() > 0 && v.len() > 0
            &&& forall|j: int| 0 <= j < k.len() ==> !white_space(#[trigger] k[j])
            &&& !white_space(v[0])
        },
        spec_parse(input) matches Ok(CommandView::Get(k)) ==> {
            &&& k.len() > 0
            &&& forall|j: int| 0 <= j < k.len() ==> !white_space(#[trigger] k[j])
        },
        spec_parse(input) matches Ok(CommandView::Delete(k)) ==> {
            &&& k.len() > 0
            &&& forall|j: int| 0 <= j < k.len() ==> !white_space(#[trigger] k[j])
        },
{
    let (cmd, rest) = spec_split_word(input);
    lemma_split_word_shape(rest);
}

/// Command names are matched without regard to ASCII case: two lines whose
/// command words match so and whose remainders are the same parse alike,
/// save that an unknown command is reported as it was written.
pub proof fn lemma_command_case_insensitive(a: Seq<char>, b: Seq<char>)
    requires
        ascii_case_eq(spec_split_word(a).0, spec_split_word(b).0),
        spec_split_word(a).1 == spec_split_word(b).1,
    ensures
        !(spec_parse(a) is Err && spec_parse(a)->Err_0 is UnknownCommand) ==> spec_parse(a)
            == spec_parse(b),
        spec_parse(a) is Err && spec_parse(a)->Err_0 is UnknownCommand ==> (spec_parse(b) is Err
            && spec_parse(b)->Err_0 is UnknownCommand),
{
}

/// Every character of `s` is white space.
pub open spec fn all_space(s: Seq<char>) -> bool {
    forall|i: int| 0 <= i < s.len() ==> white_space(#[trigger] s[i])
}

/// No character of `s` is white space.
pub open spec fn no_space(s: Seq<char>) -> bool {
    forall|i: int| 0 <= i < s.len() ==> !white_space(#[trigger] s[i])
}

proof fn lemma_leading_space_concat(ws: Seq<char>, r: Seq<char>)
    requires
        all_space(ws),
    ensures
        leading_space(ws + r) == ws.len() + leading_space(r),
    decreases ws.len(),
{
    if ws.len() > 0 {
        assert((ws + r)[0] == ws[0]);
        assert((ws + r).drop_first() =~= ws.drop_first() + r);
        assert(all_space(ws.drop_first())) by {
            assert forall|i: int| 0 <= i < ws.drop_first().len() implies white_space(
                #[trigger] ws.drop_first()[i],
            ) by {
                assert(ws.drop_first()[i] == ws[i + 1]);
            }
        }
        lemma_leading_space_concat(ws.drop_first(), r);
    } else {
        assert(ws + r =~= r);
    }
}

proof fn lemma_leading_word_concat(w: Seq<char>, r: Seq<char>)
    requires
        no_space(w),
        r.len() == 0 || white_space(r[0]),
    ensures
        leading_word(w + r) == w.len(),
    decreases w.len(),
{
    if w.len() > 0 {
        assert((w + r)[0] == w[0]);
        assert((w + r).drop_first() =~= w.drop_first() + r);
        assert(no_space(w.drop_first())) by {
            assert forall|i: int| 0 <= i < w.drop_first().len() implies !white_space(
                #[trigger] w.drop_first()[i],
            ) by {
                assert(w.drop_first()[i] == w[i + 1]);
            }
        }
        lemma_leading_word_concat(w.drop_first(), r);
    } else {
        assert(w + r =~= r);
    }
}

/// Dropping the white space in front of `r` gives `r` back when `r` does not
/// start with white space.
proof fn lemma_trim_start_of(sp: Seq<char>, r: Seq<char>)
    requires
        all_space(sp),
        r.len() == 0 || !white_space(r[0]),
    ensures
        trim_start(sp + r) == r,
{
    lemma_leading_space_concat(sp, r);
    assert(leading_space(r) == 0);
    assert((sp + r).skip(sp.len() as int) =~= r);
}

/// The first word of white space, a word and what follows it (nothing, or
/// something that starts with white space) is that word.
proof fn lemma_split_word_of(pre: Seq<char>, w: Seq<char>, post: Seq<char>)
    requires
        all_space(pre),
        w.len() > 0,
        no_space(w),
        post.len() == 0 || white_space(post[0]),
    ensures
        spec_split_word(pre + w + post) == (w, trim_start(post)),
{
    let s = pre + w + post;
    assert(s =~= pre + (w + post));
    lemma_leading_space_concat(pre, w + post);
    assert((w + post)[0] == w[0]);
    assert(leading_space(w + post) == 0);
    let t = trim_start(s);
    assert(t =~= w + post);
    lemma_leading_word_concat(w, post);
    assert(t.take(w.len() as int) =~= w);
    assert(t.skip(w.len() as int) =~= post);
}

proof fn lemma_trim_all_space(sp: Seq<char>)
    requires
        all_space(sp),
    ensures
        trim_start(sp) == Seq::<char>::empty(),
{
    lemma_trim_start_of(sp, Seq::empty());
    assert(sp + Seq::<char>::empty() =~= sp);
}

/// The names of the three commands differ even without regard to case.
proof fn lemma_command_names_differ(c: Seq<char>)
    ensures
        ascii_case_eq(c, "GET"@) ==> !ascii_case_eq(c, "SET"@),
        ascii_case_eq(c, "DELETE"@) ==> !ascii_case_eq(c, "SET"@) && !ascii_case_eq(c, "GET"@),
{
    reveal_strlit("GET");
    reveal_strlit("SET");
    reveal_strlit("DELETE");
    let g = "GET"@.map_values(|x: char| ascii_lower(x));
    let st = "SET"@.map_values(|x: char| ascii_lower(x));
    let d = "DELETE"@.map_values(|x: char| ascii_lower(x));
    assert(g[0] != st[0]);
    assert(g.len() != d.len());
    assert(st.len() != d.len());
}

/// `SET` puts the whole rest of the line as the value: after optional white
/// space, a command word that is `SET` without regard to ASCII case, white
/// space, a key word, white space and a value that does not start with white
/// space, the line parses to a put of exactly that key and that value, white
/// space inside and at the end of the value included.
pub proof fn lemma_parse_set_line(
    pre: Seq<char>,
    c: Seq<char>,
    sp: Seq<char>,
    k: Seq<char>,
    sp2: Seq<char>,
    v: Seq<char>,
)
    requires
        all_space(pre),
        c.len() > 0,
        no_space(c),
        ascii_case_eq(c, "SET"@),
        sp.len() > 0,
        all_space(sp),
        k.len() > 0,
        no_space(k),
        sp2.len() > 0,
        all_space(sp2),
        v.len() > 0,
        !white_space(v[0]),
    ensures
        spec_parse(pre + c + sp + k + sp2 + v) == Ok::<CommandView, ParseErrorView>(
            CommandView::Put(k, v),
        ),
{
    let rest = sp + k + sp2 + v;
    assert(pre + c + sp + k + sp2 + v =~= pre + c + rest);
    assert(rest[0] == sp[0]);
    lemma_split_word_of(pre, c, rest);
    assert(rest =~= sp + (k + sp2 + v));
    assert((k + sp2 + v)[0] == k[0]);
    lemma_trim_start_of(sp, k + sp2 + v);
    let after = k + sp2 + v;
    assert(after =~= Seq::<char>::empty() + k + (sp2 + v));
    assert(all_space(Seq::<char>::empty()));
    assert((sp2 + v)[0] == sp2[0]);
    lemma_split_word_of(Seq::empty(), k, sp2 + v);
    lemma_trim_start_of(sp2, v);
}

/// `GET` asks for the key word exactly as written: after optional white
/// space, a command word that is `GET` without regard to ASCII case, white
/// space, a key word and nothing but white space, the line parses to a get of
/// exactly that key.
pub proof fn lemma_parse_get_line(
    pre: Seq<char>,
    c: Seq<char>,
    sp: Seq<char>,
    k: Seq<char>,
    post: Seq<char>,
)
    requires
        all_space(pre),
        c.len() > 0,
        no_space(c),
        ascii_case_eq(c, "GET"@),
        sp.len() > 0,
        all_space(sp),
        k.len() > 0,
        no_space(k),
        all_space(post),
    ensures
        spec_parse(pre + c + sp + k + post) == Ok::<CommandView, ParseErrorView>(
            CommandView::Get(k),
        ),
{
    lemma_command_names_differ(c);
    let rest = sp + k + post;
    assert(pre + c + sp + k + post =~= pre + c + rest);
    assert(rest[0] == sp[0]);
    lemma_split_word_of(pre, c, rest);
    assert(rest =~= sp + (k + post));
    assert((k + post)[0] == k[0]);
    lemma_trim_start_of(sp, k + post);
    assert(k + post =~= Seq::<char>::empty() + k + post);
    assert(all_space(Seq::<char>::empty()));
    lemma_split_word_of(Seq::empty(), k, post);
    lemma_trim_all_space(post);
}

/// `DELETE` names the key word exactly as written: after optional white
/// space, a command word that is `DELETE` without regard to ASCII case, white
/// space, a key word and nothing but white space, the line parses to a delete
/// of exactly that key.
pub proof fn lemma_parse_delete_line(
    pre: Seq<char>,
    c: Seq<char>,
    sp: Seq<char>,
    k: Seq<char>,
    post: Seq<char>,
)
    requires
        all_space(pre),
        c.len() > 0,
        no_space(c),
        ascii_case_eq(c, "DELETE"@),
        sp.len() > 0,
        all_space(sp),
        k.len() > 0,
        no_space(k),
        all_space(post),
    ensures
        spec_parse(pre + c + sp + k + post) == Ok::<CommandView, ParseErrorView>(
            CommandView::Delete(k),
        ),
{
    lemma_command_names_differ(c);
    let rest = sp + k + post;
    assert(pre + c + sp + k + post =~= pre + c + rest);
    assert(rest[0] == sp[0]);
    lemma_split_word_of(pre, c, rest);
    assert(rest =~= sp + (k + post));
    assert((k + post)[0] == k[0]);
    lemma_trim_start_of(sp, k + post);
    assert(k + post =~= Seq::<char>::empty() + k + post);
    assert(all_space(Seq::<char>::empty()));
    lemma_split_word_of(Seq::empty(), k, post);
    lemma_trim_all_space(post);
}

} // verus!
