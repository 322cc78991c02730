//! The textual command grammar: `draw`, `build <idx|u>` and
//! `move (<idx> <size>|u) <dst>`, parsed by an explicit tokenizer whose
//! result is pinned to a specification of the grammar.

use vstd::prelude::*;
use vstd::string::StrSliceExecFns;
use vstd::string::StringExecFns;
use crate::game::{Action, FoundationSource, TableauSource};

verus! {

/// Why a command string was rejected.
#[derive(Clone, Debug, PartialEq, Eq)]
pub enum ParseActionError {
    Invalid(String),
}

/// Splitting a character sequence on single spaces: every maximal (possibly
/// empty) run between spaces becomes one token, so the result always holds
/// at least one token.
pub open spec fn spec_split(s: Seq<char>) -> Seq<Seq<char>>
    decreases s.len(),
{
    if s.len() == 0 {
        seq![Seq::<char>::empty()]
    } else {
        let rest = spec_split(s.drop_first());
        if s[0] == ' ' {
            seq![Seq::<char>::empty()] + rest
        } else {
            seq![seq![s[0]] + rest[0]] + rest.drop_first()
        }
    }
}

/// The character is one of the ten decimal digits.
pub open spec fn is_digit(c: char) -> bool {
    48 <= c as u32 <= 57
}

/// The numeric value of one decimal digit.
pub open spec fn digit_val(c: char) -> int {
    c as u32 - 48
}

/// The token is a non-empty, all-decimal string.
pub open spec fn is_number(t: Seq<char>) -> bool {
    t.len() > 0 && forall|i: int| 0 <= i < t.len() ==> is_digit(#[trigger] t[i])
}

/// The value a decimal token denotes.
pub open spec fn number_val(t: Seq<char>) -> int
    decreases t.len(),
{
    if t.len() == 0 {
        0
    } else {
        number_val(t.drop_last()) * 10 + digit_val(t.last())
    }
}

proof fn lemma_number_val_nonneg(t: Seq<char>)
    requires
        forall|i: int| 0 <= i < t.len() ==> is_digit(#[trigger] t[i]),
    ensures
        number_val(t) >= 0,
    decreases t.len(),
{
    if t.len() > 0 {
        lemma_number_val_nonneg(t.drop_last());
    }
}

/// A decimal token denotes at least what any of its prefixes denotes.
proof fn lemma_number_prefix_le(t: Seq<char>, k: int)
    requires
        forall|i: int| 0 <= i < t.len() ==> is_digit(#[trigger] t[i]),
        0 <= k <= t.len(),
    ensures
        number_val(t.take(k)) <= number_val(t),
    decreases t.len(),
{
    if k == t.len() {
        assert(t.take(k) =~= t);
    } else {
        let d = t.drop_last();
        lemma_number_prefix_le(d, k);
        assert(t.take(k) =~= d.take(k));
        lemma_number_val_nonneg(d);
    }
}

/// The command an input string denotes, if any: the input splits on single
/// spaces into exactly `draw`, `build` with a tableau number or `u`, or
/// `move` with a source (tableau number and run size, or `u`) and a
/// destination number, every number small enough for the machine.
pub open spec fn spec_parse(s: Seq<char>) -> Option<Action> {
    let toks = spec_split(s);
    if toks.len() == 1 && toks[0] == "draw"@ {
        Some(Action::Draw)
    } else if toks.len() == 2 && toks[0] == "build"@ && toks[1] == "u"@ {
        Some(Action::BuildFoundation { src: FoundationSource::Upturned })
    } else if toks.len() == 2 && toks[0] == "build"@ && is_number(toks[1]) && number_val(toks[1])
        <= usize::MAX {
        Some(
            Action::BuildFoundation {
                src: FoundationSource::Tableau(number_val(toks[1]) as usize),
            },
        )
    } else if toks.len() == 3 && toks[0] == "move"@ && toks[1] == "u"@ && is_number(toks[2])
        && number_val(toks[2]) <= usize::MAX {
        Some(
            Action::BuildTableau {
                src: TableauSource::Upturned,
                dst: number_val(toks[2]) as usize,
            },
        )
    } else if toks.len() == 4 && toks[0] == "move"@ && is_number(toks[1]) && number_val(toks[1])
        <= usize::MAX && is_number(toks[2]) && number_val(toks[2]) <= usize::MAX && is_number(
        toks[3],
    ) && number_val(toks[3]) <= usize::MAX {
        Some(
            Action::BuildTableau {
                src: TableauSource::Tableau {
                    index: number_val(toks[1]) as usize,
                    size: number_val(toks[2]) as usize,
                },
                dst: number_val(toks[3]) as usize,
            },
        )
    } else {
        None
    }
}

/// Splits the input on single spaces.
fn tokenize(s: &str) -> (toks: Vec<Vec<char>>)
    ensures
        toks.deep_view() == spec_split(s@),
        toks@.len() >= 1,
{
    let n = s.unicode_len();
    let mut toks: Vec<Vec<char>> = Vec::new();
    toks.push(Vec::new());
    proof {
        assert(s@.skip(n as int) =~= Seq::<char>::empty());
        assert(toks.deep_view() =~~= spec_split(s@.skip(n as int)));
    }
    let mut i = n;
    while i > 0
        invariant
            i <= n,
            n == s@.len(),
            toks@.len() >= 1,
            toks.deep_view() == spec_split(s@.skip(i as int)),
        decreases i,
    {
        i = i - 1;
        let ghost before = toks.deep_view();
        let ghost before_vecs = toks@;
        let c = s.get_char(i);
        proof {
            assert(s@.skip(i as int).drop_first() =~= s@.skip(i + 1));
            assert(s@.skip(i as int)[0] == s@[i as int]);
        }
        if c == ' ' {
            let empty: Vec<char> = Vec::new();
            toks.insert(0, empty);
            proof {
                assert(toks@ == before_vecs.insert(0, empty));
                assert forall|j: int| 0 <= j < toks@.len() implies toks.deep_view()[j] == (seq![
                    Seq::<char>::empty(),
                ] + before)[j] by {
                    if j == 0 {
                        assert(toks@[0].deep_view() =~= Seq::<char>::empty());
                    } else {
                        assert(toks@[j] == before_vecs[j - 1]);
                    }
                }
                assert(toks.deep_view() =~~= seq![Seq::<char>::empty()] + before);
            }
        } else {
            let t0 = &mut toks[0];
            let ghost t0_before = t0@;
            t0.insert(0, c);
            proof {
                assert(t0@ == t0_before.insert(0, c));
                assert(toks@ == before_vecs.update(0, *t0));
                assert forall|j: int| 0 <= j < toks@.len() implies toks.deep_view()[j] == (seq![
                    seq![c] + before[0],
                ] + before.drop_first())[j] by {
                    if j == 0 {
                        assert(before[0] == before_vecs[0].deep_view());
                        assert(before_vecs[0].deep_view() =~= t0_before);
                        assert(toks@[0].deep_view() =~= seq![c] + t0_before);
                    } else {
                        assert(toks@[j] == before_vecs[j]);
                    }
                }
                assert(toks.deep_view() =~~= seq![seq![c] + before[0]] + before.drop_first());
            }
        }
        proof {
            assert(toks.deep_view() =~~= spec_split(s@.skip(i as int)));
        }
    }
    proof {
        assert(s@.skip(0) =~= s@);
    }
    toks
}

/// Returns whether the token spells the given word.
fn token_is(t: &Vec<char>, w: &str) -> (r: bool)
    ensures
        r == (t@ == w@),
{
    let n = w.unicode_len();
    if t.len() != n {
        proof {
            assert(t@ != w@);
        }
        return false;
    }
    let mut k: usize = 0;
    while k < n
        invariant
            k <= n,
            n == w@.len(),
            t@.len() == n,
            forall|j: int| 0 <= j < k ==> t@[j] == w@[j],
        decreases n - k,
    {
        if t[k] != w.get_char(k) {
            proof {
                assert(t@[k as int] != w@[k as int]);
            }
            return false;
        }
        k = k + 1;
    }
    proof {
        assert(t@ =~= w@);
    }
    true
}

/// Parses the token as a decimal number that fits the machine.
fn parse_number(t: &Vec<char>) -> (r: Option<usize>)
    ensures
        match r {
            Some(v) => is_number(t@) && v as int == number_val(t@),
            None => !is_number(t@) || number_val(t@) > usize::MAX,
        },
{
    if t.len() == 0 {
        return None;
    }
    let mut acc: usize = 0;
    let mut k: usize = 0;
    while k < t.len()
        invariant
            k <= t@.len(),
            t@.len() > 0,
            forall|j: int| 0 <= j < k ==> is_digit(#[trigger] t@[j]),
            acc as int == number_val(t@.take(k as int)),
        decreases t@.len() - k,
    {
        let c = t[k];
        let d = c as u32;
        if d < 48 || d > 57 {
            proof {
                assert(!is_digit(t@[k as int]));
            }
            return None;
        }
        let dv = (d - 48) as usize;
        let wide = (acc as u128) * 10 + (dv as u128);
        proof {
            assert(is_digit(t@[k as int]));
            assert(t@.take(k + 1).drop_last() =~= t@.take(k as int));
            assert(t@.take(k + 1).last() == t@[k as int]);
            assert(wide as int == number_val(t@.take(k + 1)));
        }
        if wide > usize::MAX as u128 {
            proof {
                if is_number(t@) {
                    lemma_number_prefix_le(t@, k + 1);
                }
            }
            return None;
        }
        acc = wide as usize;
        k = k + 1;
    }
    proof {
        assert(t@.take(t@.len() as int) =~= t@);
    }
    Some(acc)
}

impl Action {
    /// Parses a textual command. Exactly the strings of the grammar are
    /// accepted; anything else is reported back inside the error.
    pub fn parse(s: &str) -> (r: Result<Action, ParseActionError>)
        ensures
            match r {
                Ok(a) => spec_parse(s@) == Some(a),
                Err(e) => spec_parse(s@) is None && (e matches ParseActionError::Invalid(m)
                    && m@ == "Unknown command "@ + s@),
            },
    {
        let toks = tokenize(s);
        proof {
            reveal_strlit("draw");
            reveal_strlit("build");
            reveal_strlit("move");
            reveal_strlit("u");
            assert forall|j: int| 0 <= j < toks@.len() implies spec_split(s@)[j] == (
            #[trigger] toks@[j])@ by {
                assert(toks.deep_view()[j] == toks@[j].deep_view());
                assert(toks@[j].deep_view() =~= toks@[j]@);
            }
        }
        if toks.len() == 1 && token_is(&toks[0], "draw") {
            return Ok(Action::Draw);
        }
        if toks.len() == 2 && token_is(&toks[0], "build") {
            if token_is(&toks[1], "u") {
                return Ok(Action::BuildFoundation { src: FoundationSource::Upturned });
            }
            match parse_number(&toks[1]) {
                Some(idx) => {
                    return Ok(Action::BuildFoundation { src: FoundationSource::Tableau(idx) });
                },
                None => {},
            }
        }
        if toks.len() == 3 && token_is(&toks[0], "move") && token_is(&toks[1], "u") {
            match parse_number(&toks[2]) {
                Some(dst) => {
                    return Ok(Action::BuildTableau { src: TableauSource::Upturned, dst });
                },
                None => {},
            }
        }
        if toks.len() == 4 && token_is(&toks[0], "move") {
            match (parse_number(&toks[1]), parse_number(&toks[2]), parse_number(&toks[3])) {
                (Some(index), Some(size), Some(dst)) => {
                    return Ok(
                        Action::BuildTableau {
                            src: TableauSource::Tableau { index, size },
                            dst,
                        },
                    );
                },
                _ => {},
            }
        }
        let mut m = "Unknown command ".to_owned();
        m.append(s);
        Err(ParseActionError::Invalid(m))
    }
}

impl std::str::FromStr for Action {
    type Err = ParseActionError;

    fn from_str(s: &str) -> Result<Action, ParseActionError> {
        Action::parse(s)
    }
}

} // verus!
