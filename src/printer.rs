use vstd::prelude::*;
use vstd::string::StringExecFns;
use crate::tree::{Binding, BindingModel, Value, ValueModel};

verus! {

/// Canonical text of a binding: `name=` followed by its values joined with `,`.
pub open spec fn binding_text(b: BindingModel) -> Seq<char>
    decreases b,
{
    b.name + seq!['='] + values_text(b.values)
}

/// The printed values of a binding, separated by `,`.
pub open spec fn values_text(vs: Seq<ValueModel>) -> Seq<char>
    decreases vs,
{
    if vs.len() == 0 {
        Seq::empty()
    } else if vs.len() == 1 {
        value_text(vs[0])
    } else {
        values_text(vs.drop_last()) + seq![','] + value_text(vs.last())
    }
}

/// Canonical text of a value: its token, then its block when it has children.
pub open spec fn value_text(v: ValueModel) -> Seq<char>
    decreases v,
{
    if v.children.len() == 0 {
        v.token
    } else {
        v.token + seq!['{'] + bindings_text(v.children) + seq!['}']
    }
}

/// The printed bindings of a block, separated by single spaces.
pub open spec fn bindings_text(bs: Seq<BindingModel>) -> Seq<char>
    decreases bs,
{
    if bs.len() == 0 {
        Seq::empty()
    } else if bs.len() == 1 {
        binding_text(bs[0])
    } else {
        bindings_text(bs.drop_last()) + seq![' '] + binding_text(bs.last())
    }
}

/// Renders a binding in canonical form.
pub fn print_binding(binding: &Binding) -> (r: String)
    ensures
        r@ == binding_text(binding@),
    decreases binding,
{
    proof {
        reveal_strlit("=");
        assert("="@ =~= seq!['=']);
    }
    let mut out = binding.name.clone();
    out.append("=");
    let ghost vs = binding@.values;
    let mut i: usize = 0;
    while i < binding.values.len()
        invariant
            i <= binding.values@.len(),
            vs == binding@.values,
            vs.len() == binding.values@.len(),
            forall|k: int| 0 <= k < vs.len() ==> #[trigger] vs[k] == binding.values@[k]@,
            out@ == binding@.name + seq!['='] + values_text(vs.subrange(0, i as int)),
        decreases binding.values@.len() - i,
    {
        let text = print_value(&binding.values[i]);
        proof {
            let prefix = vs.subrange(0, i + 1);
            assert(prefix.drop_last() =~= vs.subrange(0, i as int));
            assert(prefix.last() == vs[i as int]);
        }
        let ghost before = out@;
        if i > 0 {
            proof {
                reveal_strlit(",");
                assert(","@ =~= seq![',']);
            }
            out.append(",");
        }
        out.append(text.as_str());
        proof {
            let prefix = vs.subrange(0, i + 1);
            assert(text@ == value_text(vs[i as int]));
            if i == 0 {
                assert(prefix[0] == vs[0]);
                assert(out@ =~= binding@.name + seq!['='] + values_text(prefix));
            } else {
                assert(values_text(prefix) == values_text(prefix.drop_last()) + seq![',']
                    + value_text(prefix.last()));
                assert(out@ =~= before + seq![','] + text@);
                assert(out@ =~= binding@.name + seq!['='] + values_text(prefix));
            }
        }
        i = i + 1;
    }
    assert(vs.subrange(0, vs.len() as int) =~= vs);
    out
}

/// Renders a value in canonical form; an empty block is left out.
pub fn print_value(value: &Value) -> (r: String)
    ensures
        r@ == value_text(value@),
    decreases value,
{
    proof {
        reveal_strlit("{");
        reveal_strlit("}");
        assert("{"@ =~= seq!['{']);
        assert("}"@ =~= seq!['}']);
    }
    let mut out = value.value.clone();
    if value.children.len() == 0 {
        return out;
    }
    out.append("{");
    let ghost bs = value@.children;
    let mut i: usize = 0;
    while i < value.children.len()
        invariant
            i <= value.children@.len(),
            bs == value@.children,
            bs.len() == value.children@.len(),
            forall|k: int| 0 <= k < bs.len() ==> #[trigger] bs[k] == value.children@[k]@,
            out@ == value@.token + seq!['{'] + bindings_text(bs.subrange(0, i as int)),
        decreases value.children@.len() - i,
    {
        let text = print_binding(&value.children[i]);
        proof {
            let prefix = bs.subrange(0, i + 1);
            assert(prefix.drop_last() =~= bs.subrange(0, i as int));
            assert(prefix.last() == bs[i as int]);
        }
        let ghost before = out@;
        if i > 0 {
            proof {
                reveal_strlit(" ");
                assert(" "@ =~= seq![' ']);
            }
            out.append(" ");
        }
        out.append(text.as_str());
        proof {
            let prefix = bs.subrange(0, i + 1);
            assert(text@ == binding_text(bs[i as int]));
            if i == 0 {
                assert(prefix[0] == bs[0]);
                assert(out@ =~= value@.token + seq!['{'] + bindings_text(prefix));
            } else {
                assert(bindings_text(prefix) == bindings_text(prefix.drop_last()) + seq![' ']
                    + binding_text(prefix.last()));
                assert(out@ =~= before + seq![' '] + text@);
                assert(out@ =~= value@.token + seq!['{'] + bindings_text(prefix));
            }
        }
        i = i + 1;
    }
    assert(bs.subrange(0, bs.len() as int) =~= bs);
    out.append("}");
    out
}

} // verus!
