use vstd::prelude::*;
use crate::tree::{BindingModel, ValueModel};

verus! {

/// A character that may appear in an identifier: an ASCII letter or digit.
pub open spec fn is_alnum(c: char) -> bool {
    ('a' <= c && c <= 'z') || ('A' <= c && c <= 'Z') || ('0' <= c && c <= '9')
}

/// A whitespace character: space, tab, carriage return or line feed.
pub open spec fn is_ws(c: char) -> bool {
    c == ' ' || c == '\t' || c == '\r' || c == '\n'
}

/// A non-empty run of ASCII letters and digits.
pub open spec fn is_identifier(s: Seq<char>) -> bool {
    s.len() > 0 && forall|k: int| 0 <= k < s.len() ==> is_alnum(#[trigger] s[k])
}

/// A binding that the grammar can produce with blocks at most `d` deep: its name and
/// the tokens under it are identifiers, and it holds at least one value.
pub open spec fn wf_binding(b: BindingModel, d: nat) -> bool
    decreases b,
{
    &&& is_identifier(b.name)
    &&& b.values.len() > 0
    &&& forall|k: int| 0 <= k < b.values.len() ==> wf_value(#[trigger] b.values[k], d)
}

/// A value that the grammar can produce with blocks at most `d` deep: its token and
/// everything below it are valid, and it has no block when `d` is zero.
pub open spec fn wf_value(v: ValueModel, d: nat) -> bool
    decreases v,
{
    &&& is_identifier(v.token)
    &&& v.children.len() > 0 ==> d > 0
    &&& forall|k: int|
        0 <= k < v.children.len() ==> wf_binding(#[trigger] v.children[k], (d - 1) as nat)
}

/// What the parser was looking for where it stopped.
#[derive(Debug, Clone, Copy, PartialEq, Eq, Structural)]
pub enum Expected {
    /// A letter or digit starting a name or a token.
    Identifier,
    /// The `=` after a binding's name.
    Equals,
    /// Whitespace before the next binding of a block, or the `}` closing it.
    BlockEnd,
    /// No further block: the `{` found there would nest blocks deeper than allowed.
    NestingLimit,
}

/// End of the run of letters and digits that starts at `i`.
pub open spec fn ident_end(s: Seq<char>, i: int) -> int
    decreases s.len() - i,
{
    if 0 <= i < s.len() && is_alnum(s[i]) {
        ident_end(s, i + 1)
    } else {
        i
    }
}

/// First position at or after `i` that does not hold whitespace.
pub open spec fn skip_ws(s: Seq<char>, i: int) -> int
    decreases s.len() - i,
{
    if 0 <= i < s.len() && is_ws(s[i]) {
        skip_ws(s, i + 1)
    } else {
        i
    }
}

/// The run of letters and digits from `i` stays inside the text and ends at the first
/// character that is neither.
pub proof fn lemma_ident_end(s: Seq<char>, i: int)
    ensures
        i <= ident_end(s, i),
        0 <= i <= s.len() ==> ident_end(s, i) <= s.len(),
        forall|k: int| i <= k < ident_end(s, i) ==> is_alnum(#[trigger] s[k]),
        0 <= i ==> !(0 <= ident_end(s, i) < s.len() && is_alnum(s[ident_end(s, i)])),
    decreases s.len() - i,
{
    if 0 <= i < s.len() && is_alnum(s[i]) {
        lemma_ident_end(s, i + 1);
    }
}

/// Skipping whitespace from `i` stays inside the text and stops at the first character
/// that is not whitespace.
pub proof fn lemma_skip_ws(s: Seq<char>, i: int)
    ensures
        i <= skip_ws(s, i),
        0 <= i <= s.len() ==> skip_ws(s, i) <= s.len(),
        forall|k: int| i <= k < skip_ws(s, i) ==> is_ws(#[trigger] s[k]),
        0 <= i ==> !(0 <= skip_ws(s, i) < s.len() && is_ws(s[skip_ws(s, i)])),
    decreases s.len() - i,
{
    if 0 <= i < s.len() && is_ws(s[i]) {
        lemma_skip_ws(s, i + 1);
    }
}

/// `s[k]` exists and is `c`.
pub open spec fn char_at(s: Seq<char>, k: int, c: char) -> bool {
    0 <= k < s.len() && s[k] == c
}

/// Parses a value that starts at `i`: a token, then, after optional whitespace, an
/// optional block, inside which blocks nest at most `d - 1` deep. On success gives the
/// value and the position just after its token (no block) or its closing `}`. On
/// failure gives the position and what was expected.
pub open spec fn value_at(s: Seq<char>, i: int, d: nat) -> Result<
    (ValueModel, int),
    (int, Expected),
>
    decreases s.len() - i, 0int,
{
    let e = ident_end(s, i);
    if e == i {
        Err((i, Expected::Identifier))
    } else {
        let j = skip_ws(s, e);
        proof {
            lemma_ident_end(s, i);
            lemma_skip_ws(s, e);
            lemma_skip_ws(s, j + 1);
        }
        if char_at(s, j, '{') && d == 0 {
            Err((j, Expected::NestingLimit))
        } else if char_at(s, j, '{') {
            match block_at(s, skip_ws(s, j + 1), (d - 1) as nat) {
                Ok((bs, end)) => Ok((ValueModel { token: s.subrange(i, e), children: bs }, end)),
                Err(x) => Err(x),
            }
        } else {
            Ok((ValueModel { token: s.subrange(i, e), children: Seq::empty() }, e))
        }
    }
}

/// Parses the rest of a block from `k`, which holds no whitespace: bindings separated
/// by whitespace, then `}`. Gives the bindings and the position after the `}`.
pub open spec fn block_at(s: Seq<char>, k: int, d: nat) -> Result<
    (Seq<BindingModel>, int),
    (int, Expected),
>
    decreases s.len() - k, 2int,
{
    if char_at(s, k, '}') {
        Ok((Seq::empty(), k + 1))
    } else {
        match binding_at(s, k, d) {
            Err(x) => Err(x),
            Ok((b, m)) => {
                let k2 = skip_ws(s, m);
                proof {
                    lemma_skip_ws(s, m);
                }
                if char_at(s, k2, '}') {
                    Ok((seq![b], k2 + 1))
                } else if k2 == m || m <= k || m > s.len() {
                    // `m <= k` and `m > s.len()` never hold (`lemma_binding_at`); they
                    // keep the recursion visibly well-founded.
                    Err((k2, Expected::BlockEnd))
                } else {
                    match block_at(s, k2, d) {
                        Ok((bs, end)) => Ok((seq![b] + bs, end)),
                        Err(x) => Err(x),
                    }
                }
            },
        }
    }
}

/// Parses a binding that starts at `i`: a name, `=`, then one or more values separated
/// by `,`. Gives the binding and the position after its last value.
pub open spec fn binding_at(s: Seq<char>, i: int, d: nat) -> Result<
    (BindingModel, int),
    (int, Expected),
>
    decreases s.len() - i, 1int,
{
    let e = ident_end(s, i);
    if e == i {
        Err((i, Expected::Identifier))
    } else if !char_at(s, e, '=') {
        Err((e, Expected::Equals))
    } else {
        proof {
            lemma_ident_end(s, i);
        }
        match value_at(s, e + 1, d) {
            Err(x) => Err(x),
            Ok((v, m)) => {
                if m <= i || m > s.len() {
                    // Never taken (`lemma_value_at`); keeps the recursion visibly
                    // well-founded.
                    Err((m, Expected::Identifier))
                } else {
                    match more_values_at(s, m, d) {
                        Ok((vs, end)) => Ok(
                            (BindingModel { name: s.subrange(i, e), values: seq![v] + vs }, end),
                        ),
                        Err(x) => Err(x),
                    }
                }
            },
        }
    }
}

/// Parses the values that follow a binding's first value, which ended at `m`: each is
/// introduced by a `,` (whitespace is allowed on both sides of it). Gives them and the
/// position after the last one, or `m` itself when no `,` follows.
pub open spec fn more_values_at(s: Seq<char>, m: int, d: nat) -> Result<
    (Seq<ValueModel>, int),
    (int, Expected),
>
    decreases s.len() - m, 3int,
{
    let k = skip_ws(s, m);
    proof {
        lemma_skip_ws(s, m);
        lemma_skip_ws(s, k + 1);
    }
    if char_at(s, k, ',') {
        match value_at(s, skip_ws(s, k + 1), d) {
            Err(x) => Err(x),
            Ok((v, m2)) => {
                if m2 <= m || m2 > s.len() {
                    // Never taken (`lemma_value_at`); keeps the recursion visibly
                    // well-founded.
                    Err((m2, Expected::Identifier))
                } else {
                    match more_values_at(s, m2, d) {
                        Ok((vs, end)) => Ok((seq![v] + vs, end)),
                        Err(x) => Err(x),
                    }
                }
            },
        }
    } else {
        Ok((Seq::empty(), m))
    }
}

/// A successful parse of a value moves forward, stays inside the text, and yields a
/// tree that the grammar can produce.
pub proof fn lemma_value_at(s: Seq<char>, i: int, d: nat)
    requires
        0 <= i <= s.len(),
    ensures
        value_at(s, i, d) matches Ok((v, end)) ==> i < end <= s.len() && wf_value(v, d),
    decreases s.len() - i, 0int,
{
    let e = ident_end(s, i);
    lemma_ident_end(s, i);
    if e != i {
        let j = skip_ws(s, e);
        lemma_skip_ws(s, e);
        if char_at(s, j, '{') {
            lemma_skip_ws(s, j + 1);
            if d > 0 {
                lemma_block_at(s, skip_ws(s, j + 1), (d - 1) as nat);
            }
        }
    }
}

/// A successful parse of the rest of a block moves forward, stays inside the text, and
/// yields bindings that the grammar can produce.
pub proof fn lemma_block_at(s: Seq<char>, k: int, d: nat)
    requires
        0 <= k <= s.len(),
    ensures
        block_at(s, k, d) matches Ok((bs, end)) ==> k < end <= s.len() && forall|n: int|
            0 <= n < bs.len() ==> wf_binding(#[trigger] bs[n], d),
    decreases s.len() - k, 2int,
{
    if !char_at(s, k, '}') {
        lemma_binding_at(s, k, d);
        if let Ok((b, m)) = binding_at(s, k, d) {
            let k2 = skip_ws(s, m);
            lemma_skip_ws(s, m);
            if !char_at(s, k2, '}') && !(k2 == m || m <= k || m > s.len()) {
                lemma_block_at(s, k2, d);
                if let Ok((bs, end)) = block_at(s, k2, d) {
                    assert forall|n: int| 0 <= n < (seq![b] + bs).len() implies wf_binding(
                        #[trigger] (seq![b] + bs)[n], d,
                    ) by {
                        if n > 0 {
                            assert((seq![b] + bs)[n] == bs[n - 1]);
                        }
                    }
                }
            }
        }
    }
}

/// A successful parse of a binding moves forward, stays inside the text, and yields a
/// tree that the grammar can produce.
pub proof fn lemma_binding_at(s: Seq<char>, i: int, d: nat)
    requires
        0 <= i <= s.len(),
    ensures
        binding_at(s, i, d) matches Ok((b, end)) ==> i < end <= s.len() && wf_binding(b, d),
    decreases s.len() - i, 1int,
{
    let e = ident_end(s, i);
    lemma_ident_end(s, i);
    if e != i && char_at(s, e, '=') {
        lemma_value_at(s, e + 1, d);
        if let Ok((v, m)) = value_at(s, e + 1, d) {
            lemma_more_values_at(s, m, d);
            if let Ok((vs, end)) = more_values_at(s, m, d) {
                let name = s.subrange(i, e);
                assert(is_identifier(name));
                assert forall|n: int| 0 <= n < (seq![v] + vs).len() implies wf_value(
                    #[trigger] (seq![v] + vs)[n], d,
                ) by {
                    if n > 0 {
                        assert((seq![v] + vs)[n] == vs[n - 1]);
                    }
                }
            }
        }
    }
}

/// A successful parse of a binding's later values does not move back, stays inside the
/// text, and yields values that the grammar can produce.
pub proof fn lemma_more_values_at(s: Seq<char>, m: int, d: nat)
    requires
        0 <= m <= s.len(),
    ensures
        more_values_at(s, m, d) matches Ok((vs, end)) ==> m <= end <= s.len() && forall|n: int|
            0 <= n < vs.len() ==> wf_value(#[trigger] vs[n], d),
    decreases s.len() - m, 3int,
{
    let k = skip_ws(s, m);
    lemma_skip_ws(s, m);
    if char_at(s, k, ',') {
        lemma_skip_ws(s, k + 1);
        lemma_value_at(s, skip_ws(s, k + 1), d);
        if let Ok((v, m2)) = value_at(s, skip_ws(s, k + 1), d) {
            if !(m2 <= m || m2 > s.len()) {
                lemma_more_values_at(s, m2, d);
                if let Ok((vs, end)) = more_values_at(s, m2, d) {
                    assert forall|n: int| 0 <= n < (seq![v] + vs).len() implies wf_value(
                        #[trigger] (seq![v] + vs)[n], d,
                    ) by {
                        if n > 0 {
                            assert((seq![v] + vs)[n] == vs[n - 1]);
                        }
                    }
                }
            }
        }
    }
}

} // verus!
