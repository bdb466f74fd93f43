//! The line-oriented command grammar.
//!
//! One command per line, tokens split at every single space, exactly as
//! `str::split(' ')` would: `GET <key>`, `GET_PROVIDERS <key>`,
//! `PUT <key> <value>`, `PUT_PROVIDER <key>`, `CLOSEST_PEERS <key>`.
//! A missing key or value, or an unknown verb, is a `CommandError`; parsing
//! never touches node state.

use vstd::prelude::*;

verus! {

/// Why a command line was rejected.
#[derive(Clone, Copy, PartialEq, Eq, Structural, Debug)]
pub enum CommandError {
    /// The verb wants a key and none followed it.
    ExpectedKey,
    /// `PUT` wants a value after the key and none followed it.
    ExpectedValue,
    /// The first token is not a known verb.
    UnknownCommand,
}

/// A well-formed command, keys and values as raw bytes.
#[derive(Clone, Debug)]
pub enum Command {
    Get { key: Vec<u8> },
    GetProviders { key: Vec<u8> },
    Put { key: Vec<u8>, value: Vec<u8> },
    PutProvider { key: Vec<u8> },
    ClosestPeers { key: Vec<u8> },
}

/// Mathematical image of a `Command`.
pub enum SpecCmd {
    Get(Seq<u8>),
    GetProviders(Seq<u8>),
    Put(Seq<u8>, Seq<u8>),
    PutProvider(Seq<u8>),
    ClosestPeers(Seq<u8>),
}

impl View for Command {
    type V = SpecCmd;

    open spec fn view(&self) -> SpecCmd {
        match self {
            Command::Get { key } => SpecCmd::Get(key@),
            Command::GetProviders { key } => SpecCmd::GetProviders(key@),
            Command::Put { key, value } => SpecCmd::Put(key@, value@),
            Command::PutProvider { key } => SpecCmd::PutProvider(key@),
            Command::ClosestPeers { key } => SpecCmd::ClosestPeers(key@),
        }
    }
}

/// The token before the first space (the whole string if there is none).
pub open spec fn head_token(s: Seq<u8>) -> Seq<u8>
    decreases s.len(),
{
    if s.len() == 0 {
        s
    } else if s[0] == 32u8 {
        Seq::empty()
    } else {
        seq![s[0]] + head_token(s.drop_first())
    }
}

/// What follows the first space, `None` if there is no space.
pub open spec fn rest_after(s: Seq<u8>) -> Option<Seq<u8>>
    decreases s.len(),
{
    if s.len() == 0 {
        None
    } else if s[0] == 32u8 {
        Some(s.drop_first())
    } else {
        rest_after(s.drop_first())
    }
}

proof fn lemma_split_scan(s: Seq<u8>, i: int)
    requires
        0 <= i <= s.len(),
        forall|j: int| 0 <= j < i ==> s[j] != 32u8,
        i < s.len() ==> s[i] == 32u8,
    ensures
        head_token(s) == s.subrange(0, i),
        rest_after(s) == (if i < s.len() {
            Some(s.subrange(i + 1, s.len() as int))
        } else {
            Option::<Seq<u8>>::None
        }),
    decreases s.len(),
{
    if s.len() == 0 {
        assert(head_token(s) =~= s.subrange(0, 0));
    } else if s[0] == 32u8 {
        assert(head_token(s) =~= s.subrange(0, 0));
        assert(s.drop_first() =~= s.subrange(1, s.len() as int));
    } else {
        let t = s.drop_first();
        lemma_split_scan(t, i - 1);
        assert(seq![s[0]] + t.subrange(0, i - 1) =~= s.subrange(0, i));
        if i < s.len() {
            assert(t.subrange(i, t.len() as int) =~= s.subrange(i + 1, s.len() as int));
        }
    }
}

/// Copy of `s[from..to]`.
fn sub_bytes(s: &[u8], from: usize, to: usize) -> (v: Vec<u8>)
    requires
        from <= to <= s@.len(),
    ensures
        v@ == s@.subrange(from as int, to as int),
{
    let mut v: Vec<u8> = Vec::new();
    let mut i: usize = from;
    while i < to
        invariant
            from <= i <= to <= s@.len(),
            v@ == s@.subrange(from as int, i as int),
        decreases to - i,
    {
        v.push(s[i]);
        proof {
            assert(s@.subrange(from as int, i + 1 as int) =~= s@.subrange(from as int, i as int).push(
                s@[i as int],
            ));
        }
        i = i + 1;
    }
    v
}

/// Split off the first token at the first space.
fn split_first(s: &[u8]) -> (r: (Vec<u8>, Option<Vec<u8>>))
    ensures
        r.0@ == head_token(s@),
        match r.1 {
            Some(rest) => rest_after(s@) == Some(rest@),
            None => rest_after(s@) is None,
        },
{
    let n: usize = s.len();
    let mut i: usize = 0;
    while i < n && s[i] != 32u8
        invariant
            n == s@.len(),
            i <= n,
            forall|j: int| 0 <= j < i ==> s@[j] != 32u8,
        decreases n - i,
    {
        i = i + 1;
    }
    proof {
        lemma_split_scan(s@, i as int);
    }
    let head = sub_bytes(s, 0, i);
    if i < n {
        let rest = sub_bytes(s, i + 1, n);
        (head, Some(rest))
    } else {
        (head, None)
    }
}

/// The bytes of `GET`.
pub open spec fn verb_get() -> Seq<u8> {
    seq![71u8, 69u8, 84u8]
}

/// The bytes of `GET_PROVIDERS`.
pub open spec fn verb_get_providers() -> Seq<u8> {
    seq![71u8, 69u8, 84u8, 95u8, 80u8, 82u8, 79u8, 86u8, 73u8, 68u8, 69u8, 82u8, 83u8]
}

/// The bytes of `PUT`.
pub open spec fn verb_put() -> Seq<u8> {
    seq![80u8, 85u8, 84u8]
}

/// The bytes of `PUT_PROVIDER`.
pub open spec fn verb_put_provider() -> Seq<u8> {
    seq![80u8, 85u8, 84u8, 95u8, 80u8, 82u8, 79u8, 86u8, 73u8, 68u8, 69u8, 82u8]
}

/// The bytes of `CLOSEST_PEERS`.
pub open spec fn verb_closest_peers() -> Seq<u8> {
    seq![67u8, 76u8, 79u8, 83u8, 69u8, 83u8, 84u8, 95u8, 80u8, 69u8, 69u8, 82u8, 83u8]
}

fn is_verb_get(t: &[u8]) -> (r: bool)
    ensures
        r == (t@ == verb_get()),
{
    let r = t.len() == 3 && t[0] == 71u8 && t[1] == 69u8 && t[2] == 84u8;
    proof {
        if r {
            assert(t@ =~= verb_get());
        }
    }
    r
}

fn is_verb_put(t: &[u8]) -> (r: bool)
    ensures
        r == (t@ == verb_put()),
{
    let r = t.len() == 3 && t[0] == 80u8 && t[1] == 85u8 && t[2] == 84u8;
    proof {
        if r {
            assert(t@ =~= verb_put());
        }
    }
    r
}

fn is_verb_get_providers(t: &[u8]) -> (r: bool)
    ensures
        r == (t@ == verb_get_providers()),
{
    let r = t.len() == 13 && t[0] == 71u8 && t[1] == 69u8 && t[2] == 84u8 && t[3] == 95u8
        && t[4] == 80u8 && t[5] == 82u8 && t[6] == 79u8 && t[7] == 86u8 && t[8] == 73u8
        && t[9] == 68u8 && t[10] == 69u8 && t[11] == 82u8 && t[12] == 83u8;
    proof {
        if r {
            assert(t@ =~= verb_get_providers());
        }
    }
    r
}

fn is_verb_put_provider(t: &[u8]) -> (r: bool)
    ensures
        r == (t@ == verb_put_provider()),
{
    let r = t.len() == 12 && t[0] == 80u8 && t[1] == 85u8 && t[2] == 84u8 && t[3] == 95u8
        && t[4] == 80u8 && t[5] == 82u8 && t[6] == 79u8 && t[7] == 86u8 && t[8] == 73u8
        && t[9] == 68u8 && t[10] == 69u8 && t[11] == 82u8;
    proof {
        if r {
            assert(t@ =~= verb_put_provider());
        }
    }
    r
}

fn is_verb_closest_peers(t: &[u8]) -> (r: bool)
    ensures
        r == (t@ == verb_closest_peers()),
{
    let r = t.len() == 13 && t[0] == 67u8 && t[1] == 76u8 && t[2] == 79u8 && t[3] == 83u8
        && t[4] == 69u8 && t[5] == 83u8 && t[6] == 84u8 && t[7] == 95u8 && t[8] == 80u8
        && t[9] == 69u8 && t[10] == 69u8 && t[11] == 82u8 && t[12] == 83u8;
    proof {
        if r {
            assert(t@ =~= verb_closest_peers());
        }
    }
    r
}

/// What a command line means.
pub open spec fn parse_spec(s: Seq<u8>) -> Result<SpecCmd, CommandError> {
    let verb = head_token(s);
    let rest = rest_after(s);
    if verb == verb_get() {
        match rest {
            Some(r) => Ok(SpecCmd::Get(head_token(r))),
            None => Err(CommandError::ExpectedKey),
        }
    } else if verb == verb_get_providers() {
        match rest {
            Some(r) => Ok(SpecCmd::GetProviders(head_token(r))),
            None => Err(CommandError::ExpectedKey),
        }
    } else if verb == verb_put() {
        match rest {
            Some(r) => match rest_after(r) {
                Some(r2) => Ok(SpecCmd::Put(head_token(r), head_token(r2))),
                None => Err(CommandError::ExpectedValue),
            },
            None => Err(CommandError::ExpectedKey),
        }
    } else if verb == verb_put_provider() {
        match rest {
            Some(r) => Ok(SpecCmd::PutProvider(head_token(r))),
            None => Err(CommandError::ExpectedKey),
        }
    } else if verb == verb_closest_peers() {
        match rest {
            Some(r) => Ok(SpecCmd::ClosestPeers(head_token(r))),
            None => Err(CommandError::ExpectedKey),
        }
    } else {
        Err(CommandError::UnknownCommand)
    }
}

/// Parse one command line.
pub fn parse_command(line: &[u8]) -> (r: Result<Command, CommandError>)
    ensures
        match r {
            Ok(cmd) => parse_spec(line@) == Ok::<SpecCmd, CommandError>(cmd@),
            Err(e) => parse_spec(line@) == Err::<SpecCmd, CommandError>(e),
        },
{
    let (verb, rest) = split_first(line);
    if is_verb_get(verb.as_slice()) {
        match rest {
            Some(r) => {
                let (key, _tail) = split_first(r.as_slice());
                Ok(Command::Get { key })
            },
            None => Err(CommandError::ExpectedKey),
        }
    } else if is_verb_get_providers(verb.as_slice()) {
        match rest {
            Some(r) => {
                let (key, _tail) = split_first(r.as_slice());
                Ok(Command::GetProviders { key })
            },
            None => Err(CommandError::ExpectedKey),
        }
    } else if is_verb_put(verb.as_slice()) {
        match rest {
            Some(r) => {
                let (key, tail) = split_first(r.as_slice());
                match tail {
                    Some(t) => {
                        let (value, _tail2) = split_first(t.as_slice());
                        Ok(Command::Put { key, value })
                    },
                    None => Err(CommandError::ExpectedValue),
                }
            },
            None => Err(CommandError::ExpectedKey),
        }
    } else if is_verb_put_provider(verb.as_slice()) {
        match rest {
            Some(r) => {
                let (key, _tail) = split_first(r.as_slice());
                Ok(Command::PutProvider { key })
            },
            None => Err(CommandError::ExpectedKey),
        }
    } else if is_verb_closest_peers(verb.as_slice()) {
        match rest {
            Some(r) => {
                let (key, _tail) = split_first(r.as_slice());
                Ok(Command::ClosestPeers { key })
            },
            None => Err(CommandError::ExpectedKey),
        }
    } else {
        Err(CommandError::UnknownCommand)
    }
}

} // verus!
