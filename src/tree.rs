use vstd::prelude::*;

verus! {

/// A name bound to one or more values: `name=v1,v2`.
#[derive(Debug)]
pub struct Binding {
    pub name: String,
    pub values: Vec<Value>,
}

/// A token, optionally followed by a block of further bindings: `tok{a=b c=d}`.
#[derive(Debug)]
pub struct Value {
    pub value: String,
    pub children: Vec<Binding>,
}

/// Mathematical model of a `Binding`.
pub struct BindingModel {
    pub name: Seq<char>,
    pub values: Seq<ValueModel>,
}

/// Mathematical model of a `Value`.
pub struct ValueModel {
    pub token: Seq<char>,
    pub children: Seq<BindingModel>,
}

/// The models of a sequence of bindings, in order.
pub open spec fn binding_views(bs: Seq<Binding>) -> Seq<BindingModel> {
    Seq::new(bs.len(), |k: int| bs[k]@)
}

/// The models of a sequence of values, in order.
pub open spec fn value_views(vs: Seq<Value>) -> Seq<ValueModel> {
    Seq::new(vs.len(), |k: int| vs[k]@)
}

impl View for Binding {
    type V = BindingModel;

    open spec fn view(&self) -> BindingModel
        decreases self,
    {
        BindingModel {
            name: self.name@,
            values: Seq::new(
                self.values@.len(),
                |i: int|
                    {
                        if 0 <= i < self.values@.len() {
                            self.values@[i]@
                        } else {
                            arbitrary()
                        }
                    },
            ),
        }
    }
}

impl View for Value {
    type V = ValueModel;

    open spec fn view(&self) -> ValueModel
        decreases self,
    {
        ValueModel {
            token: self.value@,
            children: Seq::new(
                self.children@.len(),
                |i: int|
                    {
                        if 0 <= i < self.children@.len() {
                            self.children@[i]@
                        } else {
                            arbitrary()
                        }
                    },
            ),
        }
    }
}

/// A copy of `b` with the same model.
pub fn clone_binding(b: &Binding) -> (r: Binding)
    ensures
        r@ == b@,
    decreases b,
{
    let mut values: Vec<Value> = Vec::new();
    let mut i: usize = 0;
    while i < b.values.len()
        invariant
            i <= b.values@.len(),
            values@.len() == i,
            forall|k: int| 0 <= k < i ==> #[trigger] values@[k]@ == b.values@[k]@,
        decreases b.values@.len() - i,
    {
        values.push(clone_value(&b.values[i]));
        i = i + 1;
    }
    let r = Binding { name: b.name.clone(), values };
    assert forall|k: int| 0 <= k < r@.values.len() implies r@.values[k] == b@.values[k] by {
        assert(r.values@[k]@ == b.values@[k]@);
    }
    assert(r@.values =~= b@.values);
    r
}

/// A copy of `v` with the same model.
pub fn clone_value(v: &Value) -> (r: Value)
    ensures
        r@ == v@,
    decreases v,
{
    let mut children: Vec<Binding> = Vec::new();
    let mut i: usize = 0;
    while i < v.children.len()
        invariant
            i <= v.children@.len(),
            children@.len() == i,
            forall|k: int| 0 <= k < i ==> #[trigger] children@[k]@ == v.children@[k]@,
        decreases v.children@.len() - i,
    {
        children.push(clone_binding(&v.children[i]));
        i = i + 1;
    }
    let r = Value { value: v.value.clone(), children };
    assert forall|k: int| 0 <= k < r@.children.len() implies r@.children[k] == v@.children[k] by {
        assert(r.children@[k]@ == v.children@[k]@);
    }
    assert(r@.children =~= v@.children);
    r
}

impl Clone for Binding {
    fn clone(&self) -> (r: Binding)
        ensures
            r@ == self@,
    {
        clone_binding(self)
    }
}

impl Clone for Value {
    fn clone(&self) -> (r: Value)
        ensures
            r@ == self@,
    {
        clone_value(self)
    }
}

/// Structural equality of two bindings.
pub fn binding_eq(a: &Binding, b: &Binding) -> (r: bool)
    ensures
        r == (a@ == b@),
    decreases a,
{
    if a.name != b.name || a.values.len() != b.values.len() {
        assert(a@.name != b@.name || a@.values.len() != b@.values.len());
        return false;
    }
    let mut i: usize = 0;
    while i < a.values.len()
        invariant
            i <= a.values@.len(),
            a.values@.len() == b.values@.len(),
            forall|k: int| 0 <= k < i ==> #[trigger] a.values@[k]@ == b.values@[k]@,
        decreases a.values@.len() - i,
    {
        if !value_eq(&a.values[i], &b.values[i]) {
            assert(a@.values[i as int] != b@.values[i as int]);
            return false;
        }
        i = i + 1;
    }
    assert forall|k: int| 0 <= k < a@.values.len() implies a@.values[k] == b@.values[k] by {
        assert(a.values@[k]@ == b.values@[k]@);
    }
    assert(a@.values =~= b@.values);
    true
}

/// Structural equality of two values.
pub fn value_eq(a: &Value, b: &Value) -> (r: bool)
    ensures
        r == (a@ == b@),
    decreases a,
{
    if a.value != b.value || a.children.len() != b.children.len() {
        assert(a@.token != b@.token || a@.children.len() != b@.children.len());
        return false;
    }
    let mut i: usize = 0;
    while i < a.children.len()
        invariant
            i <= a.children@.len(),
            a.children@.len() == b.children@.len(),
            forall|k: int| 0 <= k < i ==> #[trigger] a.children@[k]@ == b.children@[k]@,
        decreases a.children@.len() - i,
    {
        if !binding_eq(&a.children[i], &b.children[i]) {
            assert(a@.children[i as int] != b@.children[i as int]);
            return false;
        }
        i = i + 1;
    }
    assert forall|k: int| 0 <= k < a@.children.len() implies a@.children[k] == b@.children[k] by {
        assert(a.children@[k]@ == b.children@[k]@);
    }
    assert(a@.children =~= b@.children);
    true
}

impl PartialEq for Binding {
    fn eq(&self, other: &Binding) -> (r: bool) {
        binding_eq(self, other)
    }
}

impl vstd::std_specs::cmp::PartialEqSpecImpl for Binding {
    open spec fn obeys_eq_spec() -> bool {
        true
    }

    open spec fn eq_spec(&self, other: &Binding) -> bool {
        self@ == other@
    }
}

impl Eq for Binding {
}

impl PartialEq for Value {
    fn eq(&self, other: &Value) -> (r: bool) {
        value_eq(self, other)
    }
}

impl vstd::std_specs::cmp::PartialEqSpecImpl for Value {
    open spec fn obeys_eq_spec() -> bool {
        true
    }

    open spec fn eq_spec(&self, other: &Value) -> bool {
        self@ == other@
    }
}

impl Eq for Value {
}

} // verus!
