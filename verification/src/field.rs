//! Pure pieces of the field and its console: pattern tokens, reflex token
//! matching, seed bytes, and the words of a console impulse command.
use vstd::prelude::*;
use vstd::string::*;

use crate::text::{chars_of, split_whitespace, string_of, words};
use crate::types::ImpulseKind;

verus! {

/// What `str::to_lowercase` returns for `s`: the full Unicode lowercase
/// mapping.
pub uninterp spec fn str_lower(s: Seq<char>) -> Seq<char>;

/// `str::to_lowercase`. Its contract says only that the result is the
/// lowercase mapping of `s`, a function of `s` alone.
#[verifier::external_body]
pub(crate) fn to_lowercase(s: &str) -> (r: String)
    ensures
        r@ == str_lower(s@),
{
    s.to_lowercase()
}

/// The characters that separate the tokens of a pattern.
pub open spec fn is_pattern_sep(c: char) -> bool {
    c == '/' || c == ':' || c == '.'
}

/// Length of the longest prefix of `s` without a separator.
pub open spec fn piece_len(s: Seq<char>) -> nat
    decreases s.len(),
{
    if s.len() == 0 || is_pattern_sep(s[0]) {
        0
    } else {
        1 + piece_len(s.drop_first())
    }
}

pub proof fn lemma_piece_len_bound(s: Seq<char>)
    ensures
        piece_len(s) <= s.len(),
        s.len() > 0 && !is_pattern_sep(s[0]) ==> piece_len(s) >= 1,
    decreases s.len(),
{
    if s.len() > 0 {
        lemma_piece_len_bound(s.drop_first());
    }
}

/// The non-empty runs of `s` between separators, in order.
pub open spec fn pieces(s: Seq<char>) -> Seq<Seq<char>>
    decreases s.len(),
{
    if s.len() == 0 {
        seq![]
    } else if is_pattern_sep(s[0]) {
        pieces(s.drop_first())
    } else {
        let n = piece_len(s);
        proof {
            lemma_piece_len_bound(s);
        }
        seq![s.take(n as int)] + pieces(s.skip(n as int))
    }
}

pub open spec fn no_sep(s: Seq<char>) -> bool {
    forall|i: int| 0 <= i < s.len() ==> !is_pattern_sep(#[trigger] s[i])
}

proof fn lemma_piece_len_of_piece(w: Seq<char>, t: Seq<char>)
    requires
        no_sep(w),
        t.len() == 0 || is_pattern_sep(t[0]),
    ensures
        piece_len(w + t) == w.len(),
    decreases w.len(),
{
    if w.len() == 0 {
        assert(w + t =~= t);
    } else {
        assert((w + t).drop_first() =~= w.drop_first() + t);
        lemma_piece_len_of_piece(w.drop_first(), t);
    }
}

proof fn lemma_pieces_after_piece(w: Seq<char>, t: Seq<char>)
    requires
        no_sep(w),
        w.len() > 0,
        t.len() == 0 || is_pattern_sep(t[0]),
    ensures
        pieces(w + t) == seq![w] + pieces(t),
{
    lemma_piece_len_of_piece(w, t);
    assert((w + t).take(w.len() as int) =~= w);
    assert((w + t).skip(w.len() as int) =~= t);
}

/// Splits `s` at `/`, `:` and `.`, dropping empty pieces.
fn split_pattern(s: &str) -> (out: Vec<String>)
    ensures
        out.len() == pieces(s@).len(),
        forall|i: int| 0 <= i < out.len() ==> #[trigger] out[i]@ == pieces(s@)[i],
{
    let cs = chars_of(s);
    let ghost full = s@;
    let mut out: Vec<String> = Vec::new();
    let mut cur: Vec<char> = Vec::new();
    let mut i: usize = 0;
    proof {
        assert(cur@ + full.skip(0) =~= full);
        assert(Seq::new(out.len() as nat, |k: int| out[k]@) =~= Seq::<Seq<char>>::empty());
    }
    while i < cs.len()
        invariant
            cs@ == full,
            i <= cs.len(),
            no_sep(cur@),
            ({
                let done = Seq::new(out.len() as nat, |k: int| out[k]@);
                done + pieces(cur@ + full.skip(i as int)) == pieces(full)
            }),
        decreases cs.len() - i,
    {
        let c = cs[i];
        let ghost done = Seq::new(out.len() as nat, |k: int| out[k]@);
        let ghost rest = full.skip(i as int);
        assert(rest[0] == c);
        assert(rest.drop_first() =~= full.skip(i + 1));
        if c == '/' || c == ':' || c == '.' {
            if cur.len() > 0 {
                proof {
                    lemma_pieces_after_piece(cur@, rest);
                    assert(pieces(rest) == pieces(rest.drop_first()));
                }
                let w = string_of(cur.as_slice());
                out.push(w);
                cur = Vec::new();
                proof {
                    let done2 = Seq::new(out.len() as nat, |k: int| out[k]@);
                    assert(done2 =~= done.push(w@));
                    assert(seq![w@] + pieces(rest.drop_first()) =~= seq![w@] + pieces(cur@ + full.skip(i + 1)));
                    assert(done2 + pieces(cur@ + full.skip(i + 1)) =~= done + (seq![w@] + pieces(
                        full.skip(i + 1),
                    )));
                }
            } else {
                proof {
                    assert(cur@ + rest =~= rest);
                    assert(cur@ + full.skip(i + 1) =~= full.skip(i + 1));
                }
            }
        } else {
            let ghost before = cur@;
            cur.push(c);
            proof {
                assert(cur@ + full.skip(i + 1) =~= before + rest) by {
                    assert(rest =~= seq![c] + full.skip(i + 1));
                }
            }
        }
        i += 1;
    }
    proof {
        assert(full.skip(i as int) =~= Seq::<char>::empty());
        assert(cur@ + full.skip(i as int) =~= cur@);
    }
    if cur.len() > 0 {
        let ghost done = Seq::new(out.len() as nat, |k: int| out[k]@);
        proof {
            lemma_pieces_after_piece(cur@, Seq::<char>::empty());
            assert(cur@ + Seq::<char>::empty() =~= cur@);
            assert(pieces(Seq::<char>::empty()) =~= Seq::<Seq<char>>::empty());
        }
        let w = string_of(cur.as_slice());
        out.push(w);
        proof {
            let done2 = Seq::new(out.len() as nat, |k: int| out[k]@);
            assert(done2 =~= done + seq![w@]);
        }
    } else {
        proof {
            assert(pieces(cur@) =~= Seq::<Seq<char>>::empty());
        }
    }
    proof {
        let done = Seq::new(out.len() as nat, |k: int| out[k]@);
        assert(done == pieces(full));
        assert forall|k: int| 0 <= k < out.len() implies #[trigger] out[k]@ == pieces(full)[k] by {
            assert(done[k] == out[k]@);
        }
    }
    out
}

/// The tokens of a pattern: its pieces between `/`, `:` and `.`,
/// lowercased.
pub open spec fn pattern_tokens(s: Seq<char>) -> Seq<Seq<char>> {
    pieces(s).map_values(|p: Seq<char>| str_lower(p))
}

/// Splits a pattern into lowercase tokens: `cpu/Load.avg` gives `cpu`,
/// `load`, `avg`.
pub fn tokenize(input: &str) -> (out: Vec<String>)
    ensures
        out.len() == pattern_tokens(input@).len(),
        forall|i: int| 0 <= i < out.len() ==> #[trigger] out[i]@ == pattern_tokens(input@)[i],
{
    let ps = split_pattern(input);
    let mut out: Vec<String> = Vec::new();
    let mut i: usize = 0;
    while i < ps.len()
        invariant
            i <= ps.len(),
            out.len() == i,
            ps.len() == pieces(input@).len(),
            forall|k: int| 0 <= k < ps.len() ==> #[trigger] ps[k]@ == pieces(input@)[k],
            forall|k: int| 0 <= k < i ==> #[trigger] out[k]@ == str_lower(pieces(input@)[k]),
        decreases ps.len() - i,
    {
        out.push(to_lowercase(ps[i].as_str()));
        i += 1;
    }
    out
}

/// A reflex watching `rule_token` reacts to `token` when the two are equal
/// or `token` is one of the rule token's lowercase pattern tokens.
pub open spec fn spec_reflex_token_matches(rule_token: Seq<char>, token: Seq<char>) -> bool {
    rule_token == token || pattern_tokens(rule_token).contains(token)
}

/// Whether a reflex watching `rule_token` reacts to `token`.
pub fn reflex_token_matches(rule_token: &str, token: &str) -> (r: bool)
    ensures
        r == spec_reflex_token_matches(rule_token@, token@),
{
    if crate::text::str_eq(rule_token, token) {
        return true;
    }
    let toks = tokenize(rule_token);
    let mut i: usize = 0;
    while i < toks.len()
        invariant
            i <= toks.len(),
            rule_token@ != token@,
            toks.len() == pattern_tokens(rule_token@).len(),
            forall|k: int| 0 <= k < toks.len() ==> #[trigger] toks[k]@ == pattern_tokens(rule_token@)[k],
            forall|k: int| 0 <= k < i ==> pattern_tokens(rule_token@)[k] != token@,
        decreases toks.len() - i,
    {
        if crate::text::str_eq(toks[i].as_str(), token) {
            assert(pattern_tokens(rule_token@)[i as int] == token@);
            return true;
        }
        i += 1;
    }
    false
}

/// Byte `i` of the seed derived from `b`: the bytes of `b` repeated, each
/// raised by `37 * i` modulo 256; all zero for an empty `b`.
pub open spec fn seed_byte(b: Seq<u8>, i: int) -> u8 {
    if b.len() == 0 {
        0
    } else {
        ((b[i % (b.len() as int)] + (i * 37) % 256) % 256) as u8
    }
}

/// The 32 bytes a cell seed is drawn from, derived from the seed text.
pub fn derive_seed_bytes(seed_str: &str) -> (bytes: [u8; 32])
    ensures
        forall|i: int| 0 <= i < 32 ==> #[trigger] bytes@[i] == seed_byte(seed_str.spec_bytes(), i),
{
    let mut bytes = [0u8; 32];
    let seed_bytes = seed_str.as_bytes();
    let n = seed_bytes.len();
    if n == 0 {
        return bytes;
    }
    let mut i: usize = 0;
    while i < 32
        invariant
            n == seed_bytes@.len(),
            seed_bytes@ == seed_str.spec_bytes(),
            n > 0,
            i <= 32,
            bytes@.len() == 32,
            forall|k: int| 0 <= k < i ==> #[trigger] bytes@[k] == seed_byte(seed_str.spec_bytes(), k),
        decreases 32 - i,
    {
        let value = seed_bytes[i % n];
        let add = ((i * 37) % 256) as u8;
        bytes.set(i, value.wrapping_add(add));
        i += 1;
    }
    bytes
}

/// The words of a console impulse command `<q|w|a> <pattern> [strength]`:
/// the kind, the pattern, and the strength text if one was given.
pub struct CommandWords {
    pub kind: ImpulseKind,
    pub pattern: String,
    pub strength: Option<String>,
}

/// The kind a console command word stands for, after lowercasing.
pub open spec fn command_kind(lower: Seq<char>) -> Option<ImpulseKind> {
    if lower == "q"@ {
        Some(ImpulseKind::Query)
    } else if lower == "w"@ {
        Some(ImpulseKind::Write)
    } else if lower == "a"@ {
        Some(ImpulseKind::Affect)
    } else {
        None
    }
}

/// What a console line reads as: none with fewer than two words or an
/// unknown command word.
pub open spec fn spec_command_words(line: Seq<char>) -> Option<(ImpulseKind, Seq<char>, Option<Seq<char>>)> {
    let w = words(line);
    if w.len() < 2 {
        None
    } else {
        match command_kind(str_lower(w[0])) {
            None => None,
            Some(k) => Some((k, w[1], if w.len() > 2 { Some(w[2]) } else { None })),
        }
    }
}

/// A console impulse is read from its words: the first word, lowercased,
/// is `q` for a query, `w` for a write or `a` for an affect (any other
/// word, or fewer than two words, is no impulse); the second word is the
/// pattern and a third, if any, the strength.
pub proof fn lemma_command_words_read(line: Seq<char>)
    ensures
        ({
            let w = words(line);
            let r = spec_command_words(line);
            &&& r is Some <==> (w.len() >= 2 && (str_lower(w[0]) == "q"@ || str_lower(w[0]) == "w"@ || str_lower(w[0])
                == "a"@))
            &&& (r is Some && str_lower(w[0]) == "q"@) ==> (r->0).0 == ImpulseKind::Query
            &&& (r is Some && str_lower(w[0]) == "w"@) ==> (r->0).0 == ImpulseKind::Write
            &&& (r is Some && str_lower(w[0]) == "a"@) ==> (r->0).0 == ImpulseKind::Affect
            &&& r is Some ==> (r->0).1 == w[1]
            &&& r is Some ==> (r->0).2 == (if w.len() > 2 { Some(w[2]) } else { None::<Seq<char>> })
        }),
{
    reveal_strlit("q");
    reveal_strlit("w");
    reveal_strlit("a");
    assert("q"@[0] == 'q' && "w"@[0] == 'w' && "a"@[0] == 'a');
}

/// Reads the words of a console impulse command.
pub fn parse_command_words(line: &str) -> (r: Option<CommandWords>)
    ensures
        match (r, spec_command_words(line@)) {
            (Some(c), Some((k, p, s))) => c.kind == k && c.pattern@ == p && match (c.strength, s) {
                (Some(a), Some(b)) => a@ == b,
                (None, None) => true,
                _ => false,
            },
            (None, None) => true,
            _ => false,
        },
{
    let w = split_whitespace(line);
    if w.len() < 2 {
        return None;
    }
    let lower = to_lowercase(w[0].as_str());
    let kind = if crate::text::str_eq(lower.as_str(), "q") {
        ImpulseKind::Query
    } else if crate::text::str_eq(lower.as_str(), "w") {
        ImpulseKind::Write
    } else if crate::text::str_eq(lower.as_str(), "a") {
        ImpulseKind::Affect
    } else {
        return None;
    };
    let strength = if w.len() > 2 { Some(w[2].clone()) } else { None };
    Some(CommandWords { kind, pattern: w[1].clone(), strength })
}

} // verus!
