use vstd::prelude::*;
use vstd::std_specs::iter::IteratorSpec;
use vstd::string::StrSliceExecFns;
use crate::grammar::{
    Expected, binding_at, block_at, char_at, ident_end, is_alnum, is_ws, lemma_binding_at,
    lemma_ident_end, lemma_more_values_at, lemma_skip_ws, lemma_value_at,
    more_values_at, skip_ws, value_at,
};
use crate::tree::{Binding, BindingModel, Value, ValueModel, binding_views, value_views};

verus! {

/// How deeply blocks may nest in the text that `parse_binding` and `parse_value` read.
pub const MAX_DEPTH: usize = 256;

/// Where parsing stopped, counted in characters from the start of the input, and
/// what was expected there.
#[derive(Debug, Clone, Copy, PartialEq, Eq, Structural)]
pub struct ParseError {
    pub offset: usize,
    pub expected: Expected,
}

/// The grammar's outcome for a whole binding read from the start of `s`: the binding
/// and where the text after it begins, once the whitespace that follows is skipped.
pub open spec fn binding_parse(s: Seq<char>) -> Result<(BindingModel, int), (int, Expected)> {
    match binding_at(s, 0, MAX_DEPTH as nat) {
        Ok((b, m)) => Ok((b, skip_ws(s, m))),
        Err(x) => Err(x),
    }
}

/// The grammar's outcome for a whole value read from the start of `s`: the value and
/// where the text after it begins, once the whitespace that follows is skipped.
pub open spec fn value_parse(s: Seq<char>) -> Result<(ValueModel, int), (int, Expected)> {
    match value_at(s, 0, MAX_DEPTH as nat) {
        Ok((v, m)) => Ok((v, skip_ws(s, m))),
        Err(x) => Err(x),
    }
}

/// `r` is the executable form of the grammar's outcome `o` for a value.
pub open spec fn value_outcome(
    r: Result<(Value, usize), ParseError>,
    o: Result<(ValueModel, int), (int, Expected)>,
) -> bool {
    match o {
        Ok((v, m)) => r is Ok && r->Ok_0.0@ == v && r->Ok_0.1 == m,
        Err((p, x)) => r is Err && r->Err_0.offset == p && r->Err_0.expected == x,
    }
}

/// `r` is the executable form of the grammar's outcome `o` for a binding.
pub open spec fn binding_outcome(
    r: Result<(Binding, usize), ParseError>,
    o: Result<(BindingModel, int), (int, Expected)>,
) -> bool {
    match o {
        Ok((b, m)) => r is Ok && r->Ok_0.0@ == b && r->Ok_0.1 == m,
        Err((p, x)) => r is Err && r->Err_0.offset == p && r->Err_0.expected == x,
    }
}

/// `r` is the executable form of the grammar's outcome `o` for the rest of a block.
pub open spec fn block_outcome(
    r: Result<(Vec<Binding>, usize), ParseError>,
    o: Result<(Seq<BindingModel>, int), (int, Expected)>,
) -> bool {
    match o {
        Ok((bs, m)) => r is Ok && binding_views(r->Ok_0.0@) == bs && r->Ok_0.1 == m,
        Err((p, x)) => r is Err && r->Err_0.offset == p && r->Err_0.expected == x,
    }
}

/// `r` is the executable form of the grammar's outcome `o` for a binding's later values.
pub open spec fn values_outcome(
    r: Result<(Vec<Value>, usize), ParseError>,
    o: Result<(Seq<ValueModel>, int), (int, Expected)>,
) -> bool {
    match o {
        Ok((vs, m)) => r is Ok && value_views(r->Ok_0.0@) == vs && r->Ok_0.1 == m,
        Err((p, x)) => r is Err && r->Err_0.offset == p && r->Err_0.expected == x,
    }
}

/// `o` with `acc` put in front of the items it yields.
pub open spec fn after<T>(acc: Seq<T>, o: Result<(Seq<T>, int), (int, Expected)>) -> Result<
    (Seq<T>, int),
    (int, Expected),
> {
    match o {
        Ok((xs, m)) => Ok((acc + xs, m)),
        Err(x) => Err(x),
    }
}

fn char_is_alnum(c: char) -> (r: bool)
    ensures
        r == is_alnum(c),
{
    ('a' <= c && c <= 'z') || ('A' <= c && c <= 'Z') || ('0' <= c && c <= '9')
}

fn char_is_ws(c: char) -> (r: bool)
    ensures
        r == is_ws(c),
{
    c == ' ' || c == '\t' || c == '\r' || c == '\n'
}

fn find_ident_end(cs: &Vec<char>, i: usize) -> (e: usize)
    requires
        i <= cs@.len(),
    ensures
        e == ident_end(cs@, i as int),
{
    let mut e: usize = i;
    while e < cs.len() && char_is_alnum(cs[e])
        invariant
            i <= e <= cs@.len(),
            ident_end(cs@, e as int) == ident_end(cs@, i as int),
        decreases cs@.len() - e,
    {
        e = e + 1;
    }
    e
}

fn find_skip_ws(cs: &Vec<char>, i: usize) -> (e: usize)
    requires
        i <= cs@.len(),
    ensures
        e == skip_ws(cs@, i as int),
{
    let mut e: usize = i;
    while e < cs.len() && char_is_ws(cs[e])
        invariant
            i <= e <= cs@.len(),
            skip_ws(cs@, e as int) == skip_ws(cs@, i as int),
        decreases cs@.len() - e,
    {
        e = e + 1;
    }
    e
}

fn has_char(cs: &Vec<char>, k: usize, c: char) -> (r: bool)
    ensures
        r == char_at(cs@, k as int, c),
        cs@.len() <= usize::MAX,
{
    k < cs.len() && cs[k] == c
}

/// Relies on `String::from_iter`: collecting characters gives a string of those
/// characters in the same order.
#[verifier::external_body]
fn string_from_chars(cs: &Vec<char>, from: usize, to: usize) -> (r: String)
    requires
        from <= to <= cs@.len(),
    ensures
        r@ == cs@.subrange(from as int, to as int),
{
    String::from_iter(cs[from..to].iter())
}

/// Parses the value that starts at character `i` of `cs`.
fn parse_value_at(cs: &Vec<char>, i: usize, d: usize) -> (r: Result<(Value, usize), ParseError>)
    requires
        i <= cs@.len(),
    ensures
        value_outcome(r, value_at(cs@, i as int, d as nat)),
    decreases cs@.len() - i, 0int,
{
    let e = find_ident_end(cs, i);
    if e == i {
        return Err(ParseError { offset: i, expected: Expected::Identifier });
    }
    proof {
        lemma_ident_end(cs@, i as int);
    }
    let j = find_skip_ws(cs, e);
    proof {
        lemma_skip_ws(cs@, e as int);
    }
    let token = string_from_chars(cs, i, e);
    if has_char(cs, j, '{') && d == 0 {
        return Err(ParseError { offset: j, expected: Expected::NestingLimit });
    }
    if has_char(cs, j, '{') {
        let k = find_skip_ws(cs, j + 1);
        proof {
            lemma_skip_ws(cs@, j + 1);
        }
        match parse_block_at(cs, k, d - 1) {
            Ok((children, end)) => {
                let v = Value { value: token, children };
                assert(v@.children =~= binding_views(v.children@));
                Ok((v, end))
            },
            Err(x) => Err(x),
        }
    } else {
        let v = Value { value: token, children: Vec::new() };
        assert(v@.children =~= Seq::<BindingModel>::empty());
        Ok((v, e))
    }
}

/// Parses the rest of a block from character `k` of `cs` through its closing `}`.
fn parse_block_at(cs: &Vec<char>, k: usize, d: usize) -> (r: Result<
    (Vec<Binding>, usize),
    ParseError,
>)
    requires
        k <= cs@.len(),
    ensures
        block_outcome(r, block_at(cs@, k as int, d as nat)),
    decreases cs@.len() - k, 2int,
{
    let mut items: Vec<Binding> = Vec::new();
    let mut pos: usize = k;
    loop
        invariant
            k <= pos <= cs@.len(),
            block_at(cs@, k as int, d as nat) == after(
                binding_views(items@),
                block_at(cs@, pos as int, d as nat),
            ),
        decreases cs@.len() - pos,
    {
        if has_char(cs, pos, '}') {
            assert(binding_views(items@) + Seq::<BindingModel>::empty() =~= binding_views(items@));
            return Ok((items, pos + 1));
        }
        proof {
            lemma_binding_at(cs@, pos as int, d as nat);
        }
        match parse_binding_at(cs, pos, d) {
            Err(x) => {
                return Err(x);
            },
            Ok((b, m)) => {
                let k2 = find_skip_ws(cs, m);
                proof {
                    lemma_skip_ws(cs@, m as int);
                }
                let ghost before = binding_views(items@);
                let ghost bm = b@;
                items.push(b);
                assert(binding_views(items@) =~= before.push(bm));
                if has_char(cs, k2, '}') {
                    assert(before + seq![bm] =~= binding_views(items@));
                    return Ok((items, k2 + 1));
                }
                if k2 == m {
                    return Err(ParseError { offset: k2, expected: Expected::BlockEnd });
                }
                proof {
                    match block_at(cs@, k2 as int, d as nat) {
                        Ok((bs, end)) => {
                            assert(before + (seq![bm] + bs) =~= binding_views(items@) + bs);
                        },
                        Err(_) => {},
                    }
                }
                pos = k2;
            },
        }
    }
}

/// Parses the binding that starts at character `i` of `cs`.
fn parse_binding_at(cs: &Vec<char>, i: usize, d: usize) -> (r: Result<(Binding, usize), ParseError>)
    requires
        i <= cs@.len(),
    ensures
        binding_outcome(r, binding_at(cs@, i as int, d as nat)),
    decreases cs@.len() - i, 1int,
{
    let e = find_ident_end(cs, i);
    if e == i {
        return Err(ParseError { offset: i, expected: Expected::Identifier });
    }
    if !has_char(cs, e, '=') {
        return Err(ParseError { offset: e, expected: Expected::Equals });
    }
    proof {
        lemma_ident_end(cs@, i as int);
        lemma_value_at(cs@, e + 1, d as nat);
    }
    match parse_value_at(cs, e + 1, d) {
        Err(x) => Err(x),
        Ok((first, m)) => {
            proof {
                lemma_more_values_at(cs@, m as int, d as nat);
            }
            match parse_more_values_at(cs, m, first, d) {
                Err(x) => Err(x),
                Ok((values, end)) => {
                    let name = string_from_chars(cs, i, e);
                    let b = Binding { name, values };
                    assert(b@.values =~= value_views(values@));
                    Ok((b, end))
                },
            }
        },
    }
}

/// Parses the values of a binding that follow its first value `first`, which ended at
/// character `m` of `cs`, and gives all of its values.
fn parse_more_values_at(cs: &Vec<char>, m: usize, first: Value, d: usize) -> (r: Result<
    (Vec<Value>, usize),
    ParseError,
>)
    requires
        m <= cs@.len(),
    ensures
        values_outcome(r, after(seq![first@], more_values_at(cs@, m as int, d as nat))),
    decreases cs@.len() - m, 3int,
{
    let mut values: Vec<Value> = Vec::new();
    let ghost first_view = first@;
    values.push(first);
    assert(value_views(values@) =~= seq![first_view]);
    let mut pos: usize = m;
    loop
        invariant
            m <= pos <= cs@.len(),
            first_view == first@,
            after(seq![first_view], more_values_at(cs@, m as int, d as nat)) == after(
                value_views(values@),
                more_values_at(cs@, pos as int, d as nat),
            ),
        decreases cs@.len() - pos,
    {
        let k = find_skip_ws(cs, pos);
        proof {
            lemma_skip_ws(cs@, pos as int);
        }
        if !has_char(cs, k, ',') {
            assert(value_views(values@) + Seq::<ValueModel>::empty() =~= value_views(values@));
            return Ok((values, pos));
        }
        assert(k < cs@.len());
        let start = find_skip_ws(cs, k + 1);
        proof {
            lemma_skip_ws(cs@, k + 1);
            lemma_value_at(cs@, start as int, d as nat);
        }
        match parse_value_at(cs, start, d) {
            Err(x) => {
                return Err(x);
            },
            Ok((v, m2)) => {
                let ghost before = value_views(values@);
                let ghost vm = v@;
                values.push(v);
                assert(value_views(values@) =~= before.push(vm));
                proof {
                    match more_values_at(cs@, m2 as int, d as nat) {
                        Ok((vs, end)) => {
                            assert(before + (seq![vm] + vs) =~= value_views(values@) + vs);
                        },
                        Err(_) => {},
                    }
                }
                pos = m2;
            },
        }
    }
}

fn chars_of(s: &str) -> (r: Vec<char>)
    ensures
        r@ == s@,
{
    let mut r: Vec<char> = Vec::new();
    for c in it: s.chars()
        invariant
            r@ == it.seq().subrange(0, it.index() as int),
    {
        r.push(c);
    }
    r
}

/// Parses a binding at the start of `input`: `name=value`, further values each after
/// a `,`, and the whitespace that follows. Gives the text that comes after it, and the
/// binding; or where the text departs from the grammar.
pub fn parse_binding(input: &str) -> (r: Result<(&str, Binding), ParseError>)
    ensures
        match binding_parse(input@) {
            Ok((b, end)) => r is Ok && r->Ok_0.1@ == b && r->Ok_0.0@ == input@.subrange(
                end,
                input@.len() as int,
            ),
            Err((p, x)) => r is Err && r->Err_0.offset == p && r->Err_0.expected == x,
        },
{
    let cs = chars_of(input);
    proof {
        lemma_binding_at(cs@, 0, MAX_DEPTH as nat);
    }
    match parse_binding_at(&cs, 0, MAX_DEPTH) {
        Ok((b, m)) => {
            let end = find_skip_ws(&cs, m);
            proof {
                lemma_skip_ws(cs@, m as int);
            }
            Ok((input.substring_char(end, cs.len()), b))
        },
        Err(x) => Err(x),
    }
}

/// Parses a value at the start of `input`: a token, an optional block of bindings,
/// and the whitespace that follows. Gives the text that comes after it, and the value;
/// or where the text departs from the grammar.
pub fn parse_value(input: &str) -> (r: Result<(&str, Value), ParseError>)
    ensures
        match value_parse(input@) {
            Ok((v, end)) => r is Ok && r->Ok_0.1@ == v && r->Ok_0.0@ == input@.subrange(
                end,
                input@.len() as int,
            ),
            Err((p, x)) => r is Err && r->Err_0.offset == p && r->Err_0.expected == x,
        },
{
    let cs = chars_of(input);
    proof {
        lemma_value_at(cs@, 0, MAX_DEPTH as nat);
    }
    match parse_value_at(&cs, 0, MAX_DEPTH) {
        Ok((v, m)) => {
            let end = find_skip_ws(&cs, m);
            proof {
                lemma_skip_ws(cs@, m as int);
            }
            Ok((input.substring_char(end, cs.len()), v))
        },
        Err(x) => Err(x),
    }
}

} // verus!
