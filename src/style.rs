use vstd::prelude::*;

verus! {

/// Whether text inserted right at a boundary of an annotated range joins it.
#[derive(PartialEq, Eq, Structural, Clone, Copy, Debug)]
pub enum Expand {
    Neither,
    Before,
    After,
    Both,
}

/// How an annotation combines with others of the same type.
#[derive(PartialEq, Eq, Structural, Clone, Copy, Debug)]
pub enum Behavior {
    Merge,
    Delete,
    AllowMultiple,
}

/// Opaque payload of an annotation; structured data travels as serialized text.
#[derive(Debug)]
pub enum StyleValue {
    Null,
    Bool(bool),
    Text(String),
}

pub ghost enum ValueView {
    Null,
    Bool(bool),
    Text(Seq<char>),
}

impl View for StyleValue {
    type V = ValueView;

    open spec fn view(&self) -> ValueView {
        match self {
            StyleValue::Null => ValueView::Null,
            StyleValue::Bool(b) => ValueView::Bool(*b),
            StyleValue::Text(s) => ValueView::Text(s@),
        }
    }
}

/// An annotation kind with its payload and its boundary and conflict rules.
#[derive(Debug)]
pub struct Style {
    pub type_: String,
    pub value: StyleValue,
    pub expand: Expand,
    pub behavior: Behavior,
}

pub ghost struct StyleView {
    pub tag: Seq<char>,
    pub value: ValueView,
    pub expand: Expand,
    pub behavior: Behavior,
}

impl View for Style {
    type V = StyleView;

    open spec fn view(&self) -> StyleView {
        StyleView {
            tag: self.type_@,
            value: self.value@,
            expand: self.expand,
            behavior: self.behavior,
        }
    }
}

pub open spec fn styles_view(s: Seq<Style>) -> Seq<StyleView> {
    s.map_values(|x: Style| x@)
}

impl StyleValue {
    pub fn copy(&self) -> (r: StyleValue)
        ensures
            r@ == self@,
    {
        match self {
            StyleValue::Null => StyleValue::Null,
            StyleValue::Bool(b) => StyleValue::Bool(*b),
            StyleValue::Text(s) => StyleValue::Text(s.clone()),
        }
    }

    pub fn same(&self, o: &StyleValue) -> (r: bool)
        ensures
            r == (self@ == o@),
    {
        match self {
            StyleValue::Null => match o {
                StyleValue::Null => true,
                _ => false,
            },
            StyleValue::Bool(a) => match o {
                StyleValue::Bool(b) => *a == *b,
                _ => false,
            },
            StyleValue::Text(a) => match o {
                StyleValue::Text(b) => {
                    let r = *a == *b;
                    proof {
                        if r {
                            assert(a@ == b@);
                        }
                    }
                    r
                },
                _ => false,
            },
        }
    }
}

impl Style {
    pub fn new(type_: String, value: StyleValue, expand: Expand, behavior: Behavior) -> (r: Style)
        ensures
            r.type_@ == type_@,
            r.value@ == value@,
            r.expand == expand,
            r.behavior == behavior,
    {
        Style { type_, value, expand, behavior }
    }

    pub fn copy(&self) -> (r: Style)
        ensures
            r@ == self@,
    {
        Style {
            type_: self.type_.clone(),
            value: self.value.copy(),
            expand: self.expand,
            behavior: self.behavior,
        }
    }

    pub fn same(&self, o: &Style) -> (r: bool)
        ensures
            r == (self@ == o@),
    {
        self.type_ == o.type_ && self.value.same(&o.value) && self.expand == o.expand
            && self.behavior == o.behavior
    }
}

/// Whether `v` holds a style equal to `st`.
pub fn contains_style(v: &Vec<Style>, st: &Style) -> (r: bool)
    ensures
        r == styles_view(v@).contains(st@),
{
    let mut q: usize = 0;
    while q < v.len()
        invariant
            q <= v.len(),
            forall|z: int| 0 <= z < q ==> styles_view(v@)[z] != st@,
        decreases v.len() - q,
    {
        if v[q].same(st) {
            proof {
                assert(styles_view(v@)[q as int] == st@);
            }
            return true;
        }
        q = q + 1;
    }
    false
}

/// Whether two style lists hold the same set of styles.
pub fn same_style_set(a: &Vec<Style>, b: &Vec<Style>) -> (r: bool)
    ensures
        r == (styles_view(a@).to_set() == styles_view(b@).to_set()),
{
    let ghost sa = styles_view(a@);
    let ghost sb = styles_view(b@);
    let mut i: usize = 0;
    while i < a.len()
        invariant
            sa == styles_view(a@),
            sb == styles_view(b@),
            i <= a.len(),
            forall|z: int| 0 <= z < i ==> sb.contains(#[trigger] sa[z]),
        decreases a.len() - i,
    {
        if !contains_style(b, &a[i]) {
            proof {
                assert(sa.to_set().contains(sa[i as int]));
                assert(!sb.to_set().contains(sa[i as int]));
            }
            return false;
        }
        i = i + 1;
    }
    let mut j: usize = 0;
    while j < b.len()
        invariant
            sa == styles_view(a@),
            sb == styles_view(b@),
            j <= b.len(),
            forall|z: int| 0 <= z < a.len() ==> sb.contains(#[trigger] sa[z]),
            forall|z: int| 0 <= z < j ==> sa.contains(#[trigger] sb[z]),
        decreases b.len() - j,
    {
        if !contains_style(a, &b[j]) {
            proof {
                assert(sb.to_set().contains(sb[j as int]));
                assert(!sa.to_set().contains(sb[j as int]));
            }
            return false;
        }
        j = j + 1;
    }
    proof {
        assert forall|x: StyleView| sa.to_set().contains(x) implies sb.to_set().contains(x) by {
            let z = choose|z: int| 0 <= z < sa.len() && sa[z] == x;
            assert(sb.contains(sa[z]));
        }
        assert forall|x: StyleView| sb.to_set().contains(x) implies sa.to_set().contains(x) by {
            let z = choose|z: int| 0 <= z < sb.len() && sb[z] == x;
            assert(sa.contains(sb[z]));
        }
        assert(sa.to_set() =~= sb.to_set());
    }
    true
}

} // verus!
