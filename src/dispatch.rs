use vstd::prelude::*;

use crate::flag::{Flag, FlagId};
use crate::registry::{actions_below, lemma_lookup_below, lookup, Registry};

verus! {

/// The abstract value of a token.
pub enum TokenId {
    Short(char),
    Long(Seq<char>),
    Value(Seq<char>),
}

/// One token of a command line, as the tokenizer hands it over: a short
/// flag `-c`, a long flag `--name`, or anything else (a positional value).
#[derive(PartialEq, Eq, Debug)]
pub enum Token {
    Short(char),
    Long(String),
    Value(String),
}

impl View for Token {
    type V = TokenId;

    open spec fn view(&self) -> TokenId {
        match self {
            Token::Short(c) => TokenId::Short(*c),
            Token::Long(s) => TokenId::Long(s@),
            Token::Value(s) => TokenId::Value(s@),
        }
    }
}

impl Token {
    /// A copy of this token.
    pub fn duplicate(&self) -> (r: Token)
        ensures
            r@ == self@,
    {
        match self {
            Token::Short(c) => Token::Short(*c),
            Token::Long(s) => Token::Long(s.clone()),
            Token::Value(s) => Token::Value(s.clone()),
        }
    }
}

/// Why a command line was rejected.
#[derive(PartialEq, Eq, Debug)]
pub enum ParseError {
    /// A token that no registered flag matches.
    Unexpected(Token),
}

/// The token a rejection carries.
pub open spec fn error_token(e: ParseError) -> TokenId {
    match e {
        ParseError::Unexpected(t) => t@,
    }
}

/// The flag a token would be looked up as; none for a positional value.
pub open spec fn token_key(t: TokenId) -> Option<FlagId> {
    match t {
        TokenId::Short(c) => Some(FlagId::Short(c)),
        TokenId::Long(s) => Some(FlagId::Long(s)),
        TokenId::Value(_) => None,
    }
}

/// The actions one token fires against a table, or `Err` with the token
/// when no registered flag matches it.
pub open spec fn step(es: Seq<(FlagId, Seq<usize>)>, t: TokenId) -> Result<Seq<usize>, TokenId> {
    match token_key(t) {
        Some(f) => if lookup(es, f).len() > 0 {
            Ok(lookup(es, f))
        } else {
            Err(t)
        },
        None => Err(t),
    }
}

/// The run of the matcher over a token stream: the actions fired, in
/// arrival order, or the first token that matches no registered flag.
pub open spec fn run(es: Seq<(FlagId, Seq<usize>)>, ts: Seq<TokenId>) -> Result<
    Seq<usize>,
    TokenId,
>
    decreases ts.len(),
{
    if ts.len() == 0 {
        Ok(seq![])
    } else {
        match run(es, ts.drop_last()) {
            Ok(acc) => match step(es, ts.last()) {
                Ok(fired) => Ok(acc + fired),
                Err(t) => Err(t),
            },
            Err(t) => Err(t),
        }
    }
}

proof fn lemma_run_stops(es: Seq<(FlagId, Seq<usize>)>, ts: Seq<TokenId>, n: int)
    requires
        0 <= n <= ts.len(),
        run(es, ts.take(n)) is Err,
    ensures
        run(es, ts) == run(es, ts.take(n)),
    decreases ts.len() - n,
{
    if n < ts.len() {
        assert(ts.take(n + 1).drop_last() =~= ts.take(n));
        lemma_run_stops(es, ts, n + 1);
    } else {
        assert(ts.take(n) =~= ts);
    }
}

/// A run over a table whose actions are all below `n` fires only actions
/// below `n`.
pub proof fn lemma_run_below(es: Seq<(FlagId, Seq<usize>)>, ts: Seq<TokenId>, n: nat)
    requires
        actions_below(es, n),
    ensures
        run(es, ts) matches Ok(fired) ==> forall|k: int|
            0 <= k < fired.len() ==> #[trigger] fired[k] < n,
    decreases ts.len(),
{
    if ts.len() > 0 {
        lemma_run_below(es, ts.drop_last(), n);
        if let Ok(acc) = run(es, ts.drop_last()) {
            if let Some(f) = token_key(ts.last()) {
                lemma_lookup_below(es, f, n);
                let l = lookup(es, f);
                if l.len() > 0 {
                    assert forall|k: int| 0 <= k < (acc + l).len() implies #[trigger] (acc + l)[k]
                        < n by {
                        if k < acc.len() {
                            assert((acc + l)[k] == acc[k]);
                        } else {
                            assert((acc + l)[k] == l[k - acc.len()]);
                        }
                    }
                }
            }
        }
    }
}

/// The views of a sequence of tokens.
pub open spec fn token_ids(ts: Seq<Token>) -> Seq<TokenId> {
    Seq::new(ts.len(), |k: int| ts[k]@)
}

/// The abstract value of a result of the matcher.
pub open spec fn outcome(r: Result<Vec<usize>, ParseError>) -> Result<Seq<usize>, TokenId> {
    match r {
        Ok(v) => Ok(v@),
        Err(e) => Err(error_token(e)),
    }
}

impl Registry {
    /// One transition of the matcher: the actions registered for the
    /// token's flag, or a rejection carrying the token.
    pub fn dispatch(&self, t: &Token) -> (r: Result<Vec<usize>, ParseError>)
        requires
            self.wf(),
        ensures
            outcome(r) == step(self@, t@),
    {
        let key = match t {
            Token::Short(c) => Flag::Short(*c),
            Token::Long(s) => Flag::Long(s.clone()),
            Token::Value(_) => {
                return Err(ParseError::Unexpected(t.duplicate()));
            },
        };
        let acts = self.actions_for(&key);
        if acts.len() > 0 {
            Ok(acts)
        } else {
            Err(ParseError::Unexpected(t.duplicate()))
        }
    }

    /// Runs the matcher over a whole token stream: accepts with the actions
    /// fired, in arrival order, or rejects at the first token that matches
    /// no registered flag.
    pub fn parse(&self, tokens: &Vec<Token>) -> (r: Result<Vec<usize>, ParseError>)
        requires
            self.wf(),
        ensures
            outcome(r) == run(self@, token_ids(tokens@)),
    {
        let ghost ts = token_ids(tokens@);
        let mut fired: Vec<usize> = Vec::new();
        let mut k: usize = 0;
        assert(ts.take(0) =~= Seq::<TokenId>::empty());
        while k < tokens.len()
            invariant
                self.wf(),
                k <= tokens@.len(),
                ts == token_ids(tokens@),
                run(self@, ts.take(k as int)) == Ok::<Seq<usize>, TokenId>(fired@),
            decreases tokens@.len() - k,
        {
            assert(ts.take(k + 1 as int).drop_last() =~= ts.take(k as int));
            assert(ts.take(k + 1 as int).last() == tokens@[k as int]@);
            match self.dispatch(&tokens[k]) {
                Ok(acts) => {
                    let ghost prev = fired@;
                    let mut m: usize = 0;
                    while m < acts.len()
                        invariant
                            m <= acts@.len(),
                            fired@ =~= prev + acts@.take(m as int),
                        decreases acts@.len() - m,
                    {
                        fired.push(acts[m]);
                        m += 1;
                        assert(fired@ =~= prev + acts@.take(m as int));
                    }
                    assert(acts@.take(m as int) =~= acts@);
                },
                Err(e) => {
                    proof {
                        lemma_run_stops(self@, ts, k + 1);
                    }
                    return Err(e);
                },
            }
            k += 1;
        }
        assert(ts.take(k as int) =~= ts);
        Ok(fired)
    }
}

/// Performs fired actions on a settings value that holds one switch per
/// field: the action of field `i` turns switch `i` on. A switch ends up on
/// when it was on before or some fired action belongs to its field.
pub fn apply_actions(settings: &mut Vec<bool>, fired: &Vec<usize>)
    requires
        forall|k: int| 0 <= k < fired@.len() ==> (#[trigger] fired@[k]) < old(settings)@.len(),
    ensures
        final(settings)@.len() == old(settings)@.len(),
        forall|i: int|
            0 <= i < old(settings)@.len() ==> #[trigger] final(settings)@[i] == (old(settings)@[i]
                || exists|k: int| 0 <= k < fired@.len() && fired@[k] == i),
{
    let ghost start = settings@;
    let mut k: usize = 0;
    while k < fired.len()
        invariant
            k <= fired@.len(),
            settings@.len() == start.len(),
            forall|k: int| 0 <= k < fired@.len() ==> (#[trigger] fired@[k]) < start.len(),
            forall|i: int|
                0 <= i < start.len() ==> #[trigger] settings@[i] == (start[i] || exists|j: int|
                    0 <= j < k && fired@[j] == i),
        decreases fired@.len() - k,
    {
        let a = fired[k];
        settings.set(a, true);
        assert forall|i: int| 0 <= i < start.len() implies #[trigger] settings@[i] == (start[i]
            || exists|j: int| 0 <= j < k + 1 && fired@[j] == i) by {
            if i == a as int {
                assert(fired@[k as int] == i);
            }
        }
        k += 1;
    }
}

impl Registry {
    /// Runs the matcher over a token stream and performs the fired actions
    /// on a settings value of `n_fields` switches that starts all off: on
    /// acceptance, switch `i` is on exactly when some fired action belongs
    /// to field `i`.
    pub fn parse_settings(&self, n_fields: usize, tokens: &Vec<Token>) -> (r: Result<
        Vec<bool>,
        ParseError,
    >)
        requires
            self.wf(),
            actions_below(self@, n_fields as nat),
        ensures
            match run(self@, token_ids(tokens@)) {
                Ok(fired) => {
                    &&& r is Ok
                    &&& r->Ok_0@.len() == n_fields
                    &&& forall|i: int|
                        0 <= i < n_fields ==> #[trigger] r->Ok_0@[i] == exists|k: int|
                            0 <= k < fired.len() && fired[k] == i
                },
                Err(t) => r is Err && error_token(r->Err_0) == t,
            },
    {
        match self.parse(tokens) {
            Ok(fired) => {
                proof {
                    lemma_run_below(self@, token_ids(tokens@), n_fields as nat);
                }
                let mut settings: Vec<bool> = Vec::new();
                let mut i: usize = 0;
                while i < n_fields
                    invariant
                        i <= n_fields,
                        settings@.len() == i,
                        forall|j: int| 0 <= j < i ==> !(#[trigger] settings@[j]),
                    decreases n_fields - i,
                {
                    settings.push(false);
                    i += 1;
                }
                apply_actions(&mut settings, &fired);
                Ok(settings)
            },
            Err(e) => Err(e),
        }
    }
}

} // verus!
