use vstd::prelude::*;

use crate::field::ids;
use crate::flag::{Flag, FlagId};

verus! {

/// Why one token of a flag declaration is not a flag.
#[derive(PartialEq, Eq, Structural, Clone, Copy, Debug)]
pub enum ArgError {
    /// The token does not follow the flag syntax; the whole declaration
    /// list is then ignored.
    Malformed,
    /// A single dash followed by a name of more than one character.
    ShortFlagLength,
    /// The token does not begin with a dash.
    NotAFlag,
}

/// A declaration error that aborts compilation.
#[derive(PartialEq, Eq, Structural, Clone, Copy, Debug)]
pub enum DeclError {
    /// A short flag must be exactly one character long.
    ShortFlagLength,
    /// An argument of a flag declaration is not a flag.
    NotAFlag,
}

pub open spec fn is_blank(c: char) -> bool {
    c == ' ' || c == '\t' || c == '\n' || c == '\r'
}

/// A character that may begin a name: a letter (any non-ASCII character
/// counts as one) or `_`.
pub open spec fn is_name_start(c: char) -> bool {
    ('a' <= c && c <= 'z') || ('A' <= c && c <= 'Z') || c == '_' || c > '\u{7f}'
}

/// A character that may stand in a name: a name start or a digit.
pub open spec fn is_name_char(c: char) -> bool {
    is_name_start(c) || ('0' <= c && c <= '9')
}

/// A run of name characters; the payload of a short flag, which may also
/// be a digit.
pub open spec fn is_word(s: Seq<char>) -> bool {
    &&& s.len() > 0
    &&& forall|k: int| 0 <= k < s.len() ==> is_name_char(#[trigger] s[k])
}

/// A long flag name: an identifier that may also hold dashes after its
/// first character.
pub open spec fn is_long_name(s: Seq<char>) -> bool {
    &&& s.len() > 0
    &&& is_name_start(s[0])
    &&& forall|k: int| 1 <= k < s.len() ==> is_name_char(#[trigger] s[k]) || s[k] == '-'
}

pub open spec fn trim_start(t: Seq<char>) -> Seq<char>
    decreases t.len(),
{
    if t.len() > 0 && is_blank(t[0]) {
        trim_start(t.subrange(1, t.len() as int))
    } else {
        t
    }
}

pub open spec fn trim_end(t: Seq<char>) -> Seq<char>
    decreases t.len(),
{
    if t.len() > 0 && is_blank(t.last()) {
        trim_end(t.drop_last())
    } else {
        t
    }
}

/// The text without its leading and trailing blanks.
pub open spec fn trim(t: Seq<char>) -> Seq<char> {
    trim_end(trim_start(t))
}

/// What a single, already trimmed token declares.
pub open spec fn classify(t: Seq<char>) -> Result<FlagId, ArgError> {
    if t.len() == 0 {
        Err(ArgError::Malformed)
    } else if t[0] != '-' {
        Err(ArgError::NotAFlag)
    } else if t.len() >= 2 && t[1] == '-' {
        let p = t.subrange(2, t.len() as int);
        if is_long_name(p) {
            Ok(FlagId::Long(p))
        } else {
            Err(ArgError::Malformed)
        }
    } else {
        let p = t.subrange(1, t.len() as int);
        if !is_word(p) {
            Err(ArgError::Malformed)
        } else if p.len() == 1 {
            Ok(FlagId::Short(p[0]))
        } else {
            Err(ArgError::ShortFlagLength)
        }
    }
}

/// The text cut at every comma.
pub open spec fn split_commas(s: Seq<char>) -> Seq<Seq<char>>
    decreases s.len(),
{
    if s.len() == 0 {
        seq![seq![]]
    } else {
        let rest = split_commas(s.drop_last());
        if s.last() == ',' {
            rest.push(seq![])
        } else {
            rest.update(rest.len() - 1, rest.last().push(s.last()))
        }
    }
}

/// The tokens read left to right: their flags, or the first failure.
pub open spec fn scan(ps: Seq<Seq<char>>) -> Result<Seq<FlagId>, ArgError>
    decreases ps.len(),
{
    if ps.len() == 0 {
        Ok(seq![])
    } else {
        match scan(ps.drop_last()) {
            Ok(fs) => match classify(trim(ps.last())) {
                Ok(f) => Ok(fs.push(f)),
                Err(e) => Err(e),
            },
            Err(e) => Err(e),
        }
    }
}

/// The tokens of a declaration list; a blank piece after the last comma
/// (a trailing comma, or an empty list) is no token.
pub open spec fn tokens_of(s: Seq<char>) -> Seq<Seq<char>> {
    let ps = split_commas(s);
    if trim(ps.last()).len() == 0 {
        ps.drop_last()
    } else {
        ps
    }
}

/// The flags a declaration list declares. A malformed list declares none;
/// a fatal token error is returned.
pub open spec fn declared_flags(s: Seq<char>) -> Result<Seq<FlagId>, DeclError> {
    match scan(tokens_of(s)) {
        Ok(fs) => Ok(fs),
        Err(ArgError::Malformed) => Ok(seq![]),
        Err(ArgError::ShortFlagLength) => Err(DeclError::ShortFlagLength),
        Err(ArgError::NotAFlag) => Err(DeclError::NotAFlag),
    }
}

/// The positions that delimit the text without its leading and trailing
/// blanks.
fn trim_bounds(t: &str) -> (r: (usize, usize))
    ensures
        r.0 <= r.1 <= t@.len(),
        trim(t@) == t@.subrange(r.0 as int, r.1 as int),
{
    let n = t.unicode_len();
    let mut a: usize = 0;
    assert(t@.subrange(0, n as int) =~= t@);
    while a < n && is_blank_char(t.get_char(a))
        invariant
            a <= n,
            n == t@.len(),
            trim_start(t@) == trim_start(t@.subrange(a as int, n as int)),
        decreases n - a,
    {
        assert(t@.subrange(a as int, n as int).subrange(1, n - a) =~= t@.subrange(
            a + 1 as int,
            n as int,
        ));
        a += 1;
    }
    let mut b: usize = n;
    while b > a && is_blank_char(t.get_char(b - 1))
        invariant
            a <= b <= n,
            n == t@.len(),
            !(a < n && is_blank(t@[a as int])),
            trim(t@) == trim_end(t@.subrange(a as int, b as int)),
        decreases b - a,
    {
        assert(t@.subrange(a as int, b as int).drop_last() =~= t@.subrange(a as int, b - 1 as int));
        b -= 1;
    }
    assert(trim_end(t@.subrange(a as int, b as int)) == t@.subrange(a as int, b as int));
    (a, b)
}

fn is_blank_char(c: char) -> (r: bool)
    ensures
        r == is_blank(c),
{
    c == ' ' || c == '\t' || c == '\n' || c == '\r'
}

fn is_name_start_char(c: char) -> (r: bool)
    ensures
        r == is_name_start(c),
{
    ('a' <= c && c <= 'z') || ('A' <= c && c <= 'Z') || c == '_' || c > '\u{7f}'
}

fn is_name_char_exec(c: char) -> (r: bool)
    ensures
        r == is_name_char(c),
{
    is_name_start_char(c) || ('0' <= c && c <= '9')
}

/// Whether `t[from..]` is a long flag name (with `dashes`) or a run of
/// name characters (without).
fn name_from(t: &str, from: usize, dashes: bool) -> (r: bool)
    requires
        from <= t@.len(),
    ensures
        dashes ==> r == is_long_name(t@.subrange(from as int, t@.len() as int)),
        !dashes ==> r == is_word(t@.subrange(from as int, t@.len() as int)),
{
    let n = t.unicode_len();
    let ghost p = t@.subrange(from as int, n as int);
    if from >= n {
        return false;
    }
    let first = t.get_char(from);
    assert(p[0] == first);
    if !(if dashes {
        is_name_start_char(first)
    } else {
        is_name_char_exec(first)
    }) {
        return false;
    }
    let mut k: usize = from + 1;
    while k < n
        invariant
            from < k <= n,
            n == t@.len(),
            p == t@.subrange(from as int, n as int),
            dashes ==> is_name_start(p[0]),
            is_name_char(p[0]),
            forall|j: int|
                1 <= j < k - from ==> is_name_char(#[trigger] p[j]) || (dashes && p[j] == '-'),
        decreases n - k,
    {
        let c = t.get_char(k);
        if !(is_name_char_exec(c) || (dashes && c == '-')) {
            assert(p[k - from] == c);
            return false;
        }
        k += 1;
    }
    true
}

impl Flag {
    /// Reads one token of a flag declaration, ignoring surrounding blanks:
    /// `-c` is a short flag, `--name` a long one.
    pub fn parse(token: &str) -> (r: Result<Flag, ArgError>)
        ensures
            match r {
                Ok(f) => classify(trim(token@)) == Ok::<FlagId, ArgError>(f@),
                Err(e) => classify(trim(token@)) == Err::<FlagId, ArgError>(e),
            },
    {
        let (a, b) = trim_bounds(token);
        let t = token.substring_char(a, b);
        let n = t.unicode_len();
        if n == 0 {
            return Err(ArgError::Malformed);
        }
        if t.get_char(0) != '-' {
            return Err(ArgError::NotAFlag);
        }
        if n >= 2 && t.get_char(1) == '-' {
            if name_from(t, 2, true) {
                let name = t.substring_char(2, n);
                Ok(Flag::Long(String::from_str(name)))
            } else {
                Err(ArgError::Malformed)
            }
        } else {
            if !name_from(t, 1, false) {
                Err(ArgError::Malformed)
            } else if n == 2 {
                Ok(Flag::Short(t.get_char(1)))
            } else {
                Err(ArgError::ShortFlagLength)
            }
        }
    }
}

/// The abstract value of a result of reading a declaration list.
pub open spec fn decl_outcome(r: Result<Vec<Flag>, DeclError>) -> Result<Seq<FlagId>, DeclError> {
    match r {
        Ok(v) => Ok(ids(v@)),
        Err(e) => Err(e),
    }
}

proof fn lemma_split_step(s: Seq<char>, i: int)
    requires
        0 <= i < s.len(),
    ensures
        s[i] == ',' ==> split_commas(s.take(i + 1)) == split_commas(s.take(i)).push(seq![]),
        s[i] != ',' ==> split_commas(s.take(i + 1)) == split_commas(s.take(i)).update(
            split_commas(s.take(i)).len() - 1,
            split_commas(s.take(i)).last().push(s[i]),
        ),
{
    assert(s.take(i + 1).drop_last() =~= s.take(i));
}

proof fn lemma_split_nonempty(s: Seq<char>)
    ensures
        split_commas(s).len() > 0,
    decreases s.len(),
{
    if s.len() > 0 {
        lemma_split_nonempty(s.drop_last());
    }
}

/// Reads the argument list of a flag declaration: comma-separated tokens,
/// each `-c` or `--name`. A list that does not follow the syntax declares no
/// flags; a token without a leading dash, or a single dash before a longer
/// name, is an error. Tokens are read left to right and the first failure
/// decides.
pub fn parse_flag_attr(text: &str) -> (r: Result<Vec<Flag>, DeclError>)
    ensures
        decl_outcome(r) == declared_flags(text@),
{
    let ghost s = text@;
    let n = text.unicode_len();
    let mut flags: Vec<Flag> = Vec::new();
    let mut failed: Option<ArgError> = None;
    let mut start: usize = 0;
    let mut i: usize = 0;
    let ghost mut done: Seq<Seq<char>> = seq![];
    assert(s.take(0) =~= Seq::<char>::empty());
    assert(s.subrange(0, 0) =~= Seq::<char>::empty());
    assert(ids(flags@) =~= Seq::<FlagId>::empty());
    while i < n
        invariant
            n == s.len(),
            s == text@,
            start <= i <= n,
            split_commas(s.take(i as int)) == done.push(s.subrange(start as int, i as int)),
            scan(done) == match failed {
                None => Ok::<Seq<FlagId>, ArgError>(ids(flags@)),
                Some(e) => Err(e),
            },
        decreases n - i,
    {
        proof {
            lemma_split_step(s, i as int);
        }
        if text.get_char(i) == ',' {
            let ghost piece = s.subrange(start as int, i as int);
            let ghost old_flags = flags@;
            assert(done.push(piece).drop_last() =~= done);
            assert(done.push(piece).last() == piece);
            if failed.is_none() {
                let piece_text = text.substring_char(start, i);
                match Flag::parse(piece_text) {
                    Ok(f) => {
                        flags.push(f);
                        assert(ids(flags@) =~= ids(old_flags).push(f@));
                    },
                    Err(e) => {
                        failed = Some(e);
                    },
                }
            }
            proof {
                done = done.push(piece);
                assert(s.subrange(i + 1 as int, i + 1 as int) =~= Seq::<char>::empty());
            }
            start = i + 1;
        } else {
            assert(s.subrange(start as int, i as int).push(s[i as int]) =~= s.subrange(
                start as int,
                i + 1 as int,
            ));
            assert(done.push(s.subrange(start as int, i as int)).update(
                done.len() as int,
                s.subrange(start as int, i + 1 as int),
            ) =~= done.push(s.subrange(start as int, i + 1 as int)));
        }
        i += 1;
    }
    assert(s.take(n as int) =~= s);
    let ghost last = s.subrange(start as int, n as int);
    let tail = text.substring_char(start, n);
    let (a, b) = trim_bounds(tail);
    let ghost old_flags = flags@;
    assert(done.push(last).drop_last() =~= done);
    assert(done.push(last).last() == last);
    proof {
        lemma_split_nonempty(s);
    }
    assert(split_commas(s).last() == last);
    if a < b && failed.is_none() {
        match Flag::parse(tail) {
            Ok(f) => {
                flags.push(f);
                assert(ids(flags@) =~= ids(old_flags).push(f@));
            },
            Err(e) => {
                failed = Some(e);
            },
        }
    }
    proof {
        if a < b {
            assert(tokens_of(s) == done.push(last));
        } else {
            assert(tokens_of(s) == done);
        }
    }
    match failed {
        None => Ok(flags),
        Some(ArgError::Malformed) => Ok(Vec::new()),
        Some(ArgError::ShortFlagLength) => Err(DeclError::ShortFlagLength),
        Some(ArgError::NotAFlag) => Err(DeclError::NotAFlag),
    }
}

} // verus!
