//! Character escaping and unescaping: XML entities, SQL and shell quoting,
//! backslash escapes in separators, and the translation of edit patterns to
//! the regular-expression syntax.
use vstd::prelude::*;
use crate::text::{chars_of, string_push, push_str, lit};

verus! {

/// The XML text of one character.
pub open spec fn html_escape_char(c: char) -> Seq<char> {
    if c == '&' {
        "&amp;"@
    } else if c == '<' {
        "&lt;"@
    } else if c == '>' {
        "&gt;"@
    } else if c == '"' {
        "&quot;"@
    } else if c == '\'' {
        "&apos;"@
    } else {
        seq![c]
    }
}

/// `s` with `&`, `<`, `>`, `"` and `'` written as XML entities.
pub open spec fn html_escaped(s: Seq<char>) -> Seq<char>
    decreases s.len(),
{
    if s.len() == 0 {
        seq![]
    } else {
        html_escaped(s.drop_last()) + html_escape_char(s.last())
    }
}

/// `s` with the XML special characters written as entities.
pub fn html_escape(s: &str) -> (r: String)
    ensures
        r@ == html_escaped(s@),
{
    let cs = chars_of(s);
    let mut out = String::new();
    let mut i: usize = 0;
    while i < cs.len()
        invariant
            i <= cs.len(),
            cs@ == s@,
            out@ == html_escaped(cs@.take(i as int)),
        decreases cs.len() - i,
    {
        let c = cs[i];
        if c == '&' {
            push_str(&mut out, "&amp;");
        } else if c == '<' {
            push_str(&mut out, "&lt;");
        } else if c == '>' {
            push_str(&mut out, "&gt;");
        } else if c == '"' {
            push_str(&mut out, "&quot;");
        } else if c == '\'' {
            push_str(&mut out, "&apos;");
        } else {
            string_push(&mut out, c);
        }
        assert(cs@.take(i + 1).drop_last() =~= cs@.take(i as int));
        i += 1;
    }
    assert(cs@.take(cs.len() as int) =~= cs@);
    out
}

/// `s` with each character that `specials` holds preceded by `pre`.
pub open spec fn prefixed(s: Seq<char>, specials: Seq<char>, pre: char) -> Seq<char>
    decreases s.len(),
{
    if s.len() == 0 {
        seq![]
    } else if specials.contains(s.last()) {
        prefixed(s.drop_last(), specials, pre) + seq![pre, s.last()]
    } else {
        prefixed(s.drop_last(), specials, pre).push(s.last())
    }
}

fn prefix_chars(s: &str, specials: &[char], pre: char) -> (r: String)
    ensures
        r@ == prefixed(s@, specials@, pre),
{
    let cs = chars_of(s);
    let mut out = String::new();
    let mut i: usize = 0;
    while i < cs.len()
        invariant
            i <= cs.len(),
            cs@ == s@,
            out@ == prefixed(cs@.take(i as int), specials@, pre),
        decreases cs.len() - i,
    {
        let c = cs[i];
        if crate::text::has_char(specials, c) {
            string_push(&mut out, pre);
        }
        string_push(&mut out, c);
        assert(cs@.take(i + 1).drop_last() =~= cs@.take(i as int));
        i += 1;
    }
    assert(cs@.take(cs.len() as int) =~= cs@);
    out
}

/// `s` with each single quote doubled, for use inside an SQL string.
pub fn sql_quote(s: &str) -> (r: String)
    ensures
        r@ == prefixed(s@, seq!['\''], '\''),
{
    let sp = ['\''];
    let r = prefix_chars(s, &sp, '\'');
    assert(sp@ =~= seq!['\'']);
    r
}

/// `s` in single quotes.
pub fn squote(s: &str) -> (r: String)
    ensures
        r@ == seq!['\''] + s@ + seq!['\''],
{
    let mut r = String::new();
    string_push(&mut r, '\'');
    push_str(&mut r, s);
    string_push(&mut r, '\'');
    r
}

/// `val` with a backslash before each backslash, single quote and double
/// quote, for use inside a shell command.
pub fn escape_unix(val: &str) -> (r: String)
    ensures
        r@ == prefixed(val@, seq!['\\', '\'', '"'], '\\'),
{
    let sp = ['\\', '\'', '"'];
    let r = prefix_chars(val, &sp, '\\');
    assert(sp@ =~= seq!['\\', '\'', '"']);
    r
}

/// The character that `\t`, `\n`, `\r` or `\\` stands for, if `c` is one of
/// `t`, `n`, `r`, `\`.
pub open spec fn simple_escape(c: char) -> Option<char> {
    if c == 't' {
        Some('\t')
    } else if c == 'n' {
        Some('\n')
    } else if c == 'r' {
        Some('\r')
    } else if c == '\\' {
        Some('\\')
    } else {
        None
    }
}

fn simple_escape_exec(c: char) -> (r: Option<char>)
    ensures
        r == simple_escape(c),
{
    if c == 't' {
        Some('\t')
    } else if c == 'n' {
        Some('\n')
    } else if c == 'r' {
        Some('\r')
    } else if c == '\\' {
        Some('\\')
    } else {
        None
    }
}

/// `s` with the escapes `\t`, `\n`, `\r`, `\\` replaced; other backslashes
/// stay as they are.
pub open spec fn unescaped(s: Seq<char>) -> Seq<char>
    decreases s.len(),
{
    if s.len() == 0 {
        seq![]
    } else if s[0] == '\\' && s.len() > 1 {
        match simple_escape(s[1]) {
            Some(e) => seq![e] + unescaped(s.skip(2)),
            None => seq!['\\', s[1]] + unescaped(s.skip(2)),
        }
    } else {
        seq![s[0]] + unescaped(s.drop_first())
    }
}

/// `s` with the escapes `\t`, `\n`, `\r`, `\\` replaced.
pub fn unescape_str(s: &str) -> (r: String)
    ensures
        r@ == unescaped(s@),
{
    let cs = chars_of(s);
    let mut out = String::new();
    let mut i: usize = 0;
    assert(cs@.skip(0) =~= cs@);
    while i < cs.len()
        invariant
            i <= cs.len(),
            cs@ == s@,
            out@ + unescaped(cs@.skip(i as int)) == unescaped(cs@),
        decreases cs.len() - i,
    {
        let c = cs[i];
        let ghost rest = cs@.skip(i as int);
        if c == '\\' && i + 1 < cs.len() {
            let d = cs[i + 1];
            match simple_escape_exec(d) {
                Some(e) => string_push(&mut out, e),
                None => {
                    string_push(&mut out, '\\');
                    string_push(&mut out, d);
                },
            }
            assert(rest.skip(2) =~= cs@.skip(i + 2));
            i += 2;
        } else {
            string_push(&mut out, c);
            assert(rest.drop_first() =~= cs@.skip(i + 1));
            i += 1;
        }
    }
    assert(cs@.skip(i as int) =~= Seq::<char>::empty());
    out
}

/// The separator that `sep` describes, with `\t`, `\n`, `\r`, `\\` replaced,
/// or the error for any other escape.
pub open spec fn spec_expand_sep(whole: Seq<char>, s: Seq<char>) -> Result<Seq<char>, Seq<char>>
    decreases s.len(),
{
    if s.len() == 0 {
        Ok(seq![])
    } else if s[0] == '\\' {
        if s.len() == 1 {
            Err("Invalid escape at end of separator: "@ + whole)
        } else {
            match simple_escape(s[1]) {
                Some(e) => match spec_expand_sep(whole, s.skip(2)) {
                    Ok(t) => Ok(seq![e] + t),
                    Err(m) => Err(m),
                },
                None => Err("Invalid special character: \\"@ + seq![s[1]]),
            }
        }
    } else {
        match spec_expand_sep(whole, s.drop_first()) {
            Ok(t) => Ok(seq![s[0]] + t),
            Err(m) => Err(m),
        }
    }
}

/// The separator that `sep` describes, with `\t`, `\n`, `\r`, `\\` replaced;
/// any other escape is an error.
pub fn expand_sep(sep: &str) -> (r: Result<String, String>)
    ensures
        match spec_expand_sep(sep@, sep@) {
            Ok(t) => r matches Ok(x) && x@ == t,
            Err(m) => r matches Err(x) && x@ == m,
        },
{
    let cs = chars_of(sep);
    let mut out = String::new();
    let mut i: usize = 0;
    assert(cs@.skip(0) =~= cs@);
    while i < cs.len()
        invariant
            i <= cs.len(),
            cs@ == sep@,
            match spec_expand_sep(sep@, cs@.skip(i as int)) {
                Ok(t) => spec_expand_sep(sep@, sep@) == Ok::<Seq<char>, Seq<char>>(out@ + t),
                Err(m) => spec_expand_sep(sep@, sep@) == Err::<Seq<char>, Seq<char>>(m),
            },
        decreases cs.len() - i,
    {
        let c = cs[i];
        let ghost rest = cs@.skip(i as int);
        if c == '\\' {
            if i + 1 >= cs.len() {
                let mut m = lit("Invalid escape at end of separator: ");
                push_str(&mut m, sep);
                return Err(m);
            }
            let d = cs[i + 1];
            match simple_escape_exec(d) {
                Some(e) => {
                    proof {
                        assert(rest.skip(2) =~= cs@.skip(i + 2));
                        match spec_expand_sep(sep@, cs@.skip(i + 2)) {
                            Ok(t) => assert(out@ + (seq![e] + t) =~= out@.push(e) + t),
                            Err(_) => {},
                        }
                    }
                    string_push(&mut out, e);
                },
                None => {
                    let mut m = lit("Invalid special character: \\");
                    string_push(&mut m, d);
                    return Err(m);
                },
            }
            i += 2;
        } else {
            proof {
                assert(rest.drop_first() =~= cs@.skip(i + 1));
                match spec_expand_sep(sep@, cs@.skip(i + 1)) {
                    Ok(t) => assert(out@ + (seq![c] + t) =~= out@.push(c) + t),
                    Err(_) => {},
                }
            }
            string_push(&mut out, c);
            i += 1;
        }
    }
    proof {
        assert(cs@.skip(i as int) =~= Seq::<char>::empty());
        assert(out@ + Seq::<char>::empty() =~= out@);
    }
    Ok(out)
}

/// The separator of the `rmnew` command: `\t` is a tab, a backslash before
/// any other character stands for that character, and a final lone backslash
/// is an error.
pub open spec fn spec_expand_rmnew_sep(s: Seq<char>) -> Option<Seq<char>>
    decreases s.len(),
{
    if s.len() == 0 {
        Some(seq![])
    } else if s[0] == '\\' {
        if s.len() == 1 {
            None
        } else {
            let e = if s[1] == 't' {
                '\t'
            } else {
                s[1]
            };
            match spec_expand_rmnew_sep(s.skip(2)) {
                Some(t) => Some(seq![e] + t),
                None => None,
            }
        }
    } else {
        match spec_expand_rmnew_sep(s.drop_first()) {
            Some(t) => Some(seq![s[0]] + t),
            None => None,
        }
    }
}

/// The separator of the `rmnew` command that `sep` describes.
pub fn expand_rmnew_sep(sep: &str) -> (r: Result<String, String>)
    ensures
        match spec_expand_rmnew_sep(sep@) {
            Some(t) => r matches Ok(x) && x@ == t,
            None => r matches Err(x) && x@ == "Invalid escape at end of string"@,
        },
{
    let cs = chars_of(sep);
    let mut out = String::new();
    let mut i: usize = 0;
    assert(cs@.skip(0) =~= cs@);
    while i < cs.len()
        invariant
            i <= cs.len(),
            cs@ == sep@,
            match spec_expand_rmnew_sep(cs@.skip(i as int)) {
                Some(t) => spec_expand_rmnew_sep(sep@) == Some(out@ + t),
                None => spec_expand_rmnew_sep(sep@) is None,
            },
        decreases cs.len() - i,
    {
        let c = cs[i];
        let ghost rest = cs@.skip(i as int);
        if c == '\\' {
            if i + 1 >= cs.len() {
                return Err(lit("Invalid escape at end of string"));
            }
            let d = cs[i + 1];
            let e = if d == 't' {
                '\t'
            } else {
                d
            };
            proof {
                assert(rest.skip(2) =~= cs@.skip(i + 2));
                match spec_expand_rmnew_sep(cs@.skip(i + 2)) {
                    Some(t) => assert(out@ + (seq![e] + t) =~= out@.push(e) + t),
                    None => {},
                }
            }
            string_push(&mut out, e);
            i += 2;
        } else {
            proof {
                assert(rest.drop_first() =~= cs@.skip(i + 1));
                match spec_expand_rmnew_sep(cs@.skip(i + 1)) {
                    Some(t) => assert(out@ + (seq![c] + t) =~= out@.push(c) + t),
                    None => {},
                }
            }
            string_push(&mut out, c);
            i += 1;
        }
    }
    proof {
        assert(cs@.skip(i as int) =~= Seq::<char>::empty());
        assert(out@ + Seq::<char>::empty() =~= out@);
    }
    Ok(out)
}

/// An edit pattern in the regular-expression syntax: `\(` and `\)` become
/// groups, bare parentheses become literal ones, other escapes stay.
pub open spec fn translated_regex(s: Seq<char>) -> Seq<char>
    decreases s.len(),
{
    if s.len() == 0 {
        seq![]
    } else if s[0] == '\\' {
        if s.len() == 1 {
            seq!['\\']
        } else if s[1] == '(' || s[1] == ')' {
            seq![s[1]] + translated_regex(s.skip(2))
        } else {
            seq!['\\', s[1]] + translated_regex(s.skip(2))
        }
    } else if s[0] == '(' || s[0] == ')' {
        seq!['\\', s[0]] + translated_regex(s.drop_first())
    } else {
        seq![s[0]] + translated_regex(s.drop_first())
    }
}

/// An edit pattern translated to the regular-expression syntax.
pub fn translate_regex(pat: &str) -> (r: String)
    ensures
        r@ == translated_regex(pat@),
{
    let cs = chars_of(pat);
    let mut out = String::new();
    let mut i: usize = 0;
    assert(cs@.skip(0) =~= cs@);
    while i < cs.len()
        invariant
            i <= cs.len(),
            cs@ == pat@,
            out@ + translated_regex(cs@.skip(i as int)) == translated_regex(cs@),
        decreases cs.len() - i,
    {
        let c = cs[i];
        let ghost rest = cs@.skip(i as int);
        if c == '\\' {
            if i + 1 < cs.len() {
                let d = cs[i + 1];
                if d == '(' || d == ')' {
                    string_push(&mut out, d);
                } else {
                    string_push(&mut out, '\\');
                    string_push(&mut out, d);
                }
                assert(rest.skip(2) =~= cs@.skip(i + 2));
                i += 2;
            } else {
                string_push(&mut out, '\\');
                assert(cs@.skip(i + 1) =~= Seq::<char>::empty());
                i += 1;
            }
        } else {
            if c == '(' || c == ')' {
                string_push(&mut out, '\\');
            }
            string_push(&mut out, c);
            assert(rest.drop_first() =~= cs@.skip(i + 1));
            i += 1;
        }
    }
    assert(cs@.skip(i as int) =~= Seq::<char>::empty());
    out
}

/// An edit replacement in the syntax of the regular-expression crate: `\1`
/// to `\9` become `$1` to `$9`, a backslash before any other character
/// stands for that character, and `$` is doubled.
pub open spec fn translated_replacement(s: Seq<char>) -> Seq<char>
    decreases s.len(),
{
    if s.len() == 0 {
        seq![]
    } else if s[0] == '\\' {
        if s.len() == 1 {
            seq!['\\']
        } else if '1' <= s[1] <= '9' {
            seq!['$', s[1]] + translated_replacement(s.skip(2))
        } else {
            seq![s[1]] + translated_replacement(s.skip(2))
        }
    } else if s[0] == '$' {
        seq!['$', '$'] + translated_replacement(s.drop_first())
    } else {
        seq![s[0]] + translated_replacement(s.drop_first())
    }
}

/// An edit replacement translated to the syntax of the regular-expression crate.
pub fn translate_replacement(repl: &str) -> (r: String)
    ensures
        r@ == translated_replacement(repl@),
{
    let cs = chars_of(repl);
    let mut out = String::new();
    let mut i: usize = 0;
    assert(cs@.skip(0) =~= cs@);
    while i < cs.len()
        invariant
            i <= cs.len(),
            cs@ == repl@,
            out@ + translated_replacement(cs@.skip(i as int)) == translated_replacement(cs@),
        decreases cs.len() - i,
    {
        let c = cs[i];
        let ghost rest = cs@.skip(i as int);
        if c == '\\' {
            if i + 1 < cs.len() {
                let d = cs[i + 1];
                if '1' <= d && d <= '9' {
                    string_push(&mut out, '$');
                }
                string_push(&mut out, d);
                assert(rest.skip(2) =~= cs@.skip(i + 2));
                i += 2;
            } else {
                string_push(&mut out, '\\');
                assert(cs@.skip(i + 1) =~= Seq::<char>::empty());
                i += 1;
            }
        } else {
            if c == '$' {
                string_push(&mut out, '$');
            }
            string_push(&mut out, c);
            assert(rest.drop_first() =~= cs@.skip(i + 1));
            i += 1;
        }
    }
    assert(cs@.skip(i as int) =~= Seq::<char>::empty());
    out
}

} // verus!
