//! The component transform: from a function definition to a properties
//! structure and a constructor that takes it.

use vstd::prelude::*;
use crate::error::{GenerationError, GenerationErrorKind, GenerationErrorModel};
use crate::text::{
    bytes_eq, check_ident, copy_bytes, copy_range, has_text_at, is_ident, occurs_at, trim, COMMA,
};
use crate::attribute::trim_bytes;

verus! {

/// A parameter of a function definition: its pattern and its type, as
/// written.
#[derive(Clone, Debug, PartialEq, Eq)]
pub struct Parameter {
    pub pattern: Vec<u8>,
    pub ty: Vec<u8>,
}

/// A function definition: what the transform reads of it.
#[derive(Clone, Debug, PartialEq, Eq)]
pub struct FunctionDefinition {
    pub name: Vec<u8>,
    pub parameters: Vec<Parameter>,
    pub body: Vec<u8>,
}

/// A field of a properties structure.
#[derive(Clone, Debug, PartialEq, Eq)]
pub struct PropField {
    pub name: Vec<u8>,
    pub ty: Vec<u8>,
    /// `false` when an omitted attribute is filled with the standard value.
    pub required: bool,
}

/// The properties structure of a component, under the component's name.
#[derive(Clone, Debug, PartialEq, Eq)]
pub struct ComponentProps {
    pub name: Vec<u8>,
    pub fields: Vec<PropField>,
    pub focusable: bool,
}

/// The constructor of a component: it takes the properties structure and the
/// children, puts the children into the field `children` where the function
/// has a parameter of that name, binds each field under its name, and runs
/// the body.
#[derive(Clone, Debug, PartialEq, Eq)]
pub struct Constructor {
    pub name: Vec<u8>,
    pub bindings: Vec<Vec<u8>>,
    pub takes_children: bool,
    pub body: Vec<u8>,
}

/// What the transform makes of a function.
#[derive(Clone, Debug, PartialEq, Eq)]
pub struct Component {
    pub props: ComponentProps,
    pub constructor: Constructor,
}

/// The model of a [`Parameter`].
pub struct ParameterModel {
    pub pattern: Seq<u8>,
    pub ty: Seq<u8>,
}

/// The model of a [`FunctionDefinition`].
pub struct FunctionModel {
    pub name: Seq<u8>,
    pub parameters: Seq<ParameterModel>,
    pub body: Seq<u8>,
}

/// The model of a [`PropField`].
pub struct PropFieldModel {
    pub name: Seq<u8>,
    pub ty: Seq<u8>,
    pub required: bool,
}

/// The model of a [`ComponentProps`].
pub struct PropsModel {
    pub name: Seq<u8>,
    pub fields: Seq<PropFieldModel>,
    pub focusable: bool,
}

/// The model of a [`Constructor`].
pub struct ConstructorModel {
    pub name: Seq<u8>,
    pub bindings: Seq<Seq<u8>>,
    pub takes_children: bool,
    pub body: Seq<u8>,
}

/// The model of a [`Component`].
pub struct ComponentModel {
    pub props: PropsModel,
    pub constructor: ConstructorModel,
}

impl View for Parameter {
    type V = ParameterModel;

    open spec fn view(&self) -> ParameterModel {
        ParameterModel { pattern: self.pattern@, ty: self.ty@ }
    }
}

impl View for FunctionDefinition {
    type V = FunctionModel;

    open spec fn view(&self) -> FunctionModel {
        FunctionModel {
            name: self.name@,
            parameters: Seq::new(self.parameters@.len(), |i: int| self.parameters@[i]@),
            body: self.body@,
        }
    }
}

impl View for PropField {
    type V = PropFieldModel;

    open spec fn view(&self) -> PropFieldModel {
        PropFieldModel { name: self.name@, ty: self.ty@, required: self.required }
    }
}

/// The models of fields, in order.
pub open spec fn fields_view(s: Seq<PropField>) -> Seq<PropFieldModel> {
    Seq::new(s.len(), |i: int| s[i]@)
}

/// Texts as byte sequences, in order.
pub open spec fn names_view(s: Seq<Vec<u8>>) -> Seq<Seq<u8>> {
    Seq::new(s.len(), |i: int| s[i]@)
}

impl View for ComponentProps {
    type V = PropsModel;

    open spec fn view(&self) -> PropsModel {
        PropsModel { name: self.name@, fields: fields_view(self.fields@), focusable: self.focusable }
    }
}

impl View for Constructor {
    type V = ConstructorModel;

    open spec fn view(&self) -> ConstructorModel {
        ConstructorModel {
            name: self.name@,
            bindings: names_view(self.bindings@),
            takes_children: self.takes_children,
            body: self.body@,
        }
    }
}

impl View for Component {
    type V = ComponentModel;

    open spec fn view(&self) -> ComponentModel {
        ComponentModel { props: self.props@, constructor: self.constructor@ }
    }
}

/// The text `children`.
pub open spec fn children_name() -> Seq<u8> {
    seq![0x63u8, 0x68u8, 0x69u8, 0x6cu8, 0x64u8, 0x72u8, 0x65u8, 0x6eu8]
}

/// The text `focusable`.
pub open spec fn focusable_name() -> Seq<u8> {
    seq![0x66u8, 0x6fu8, 0x63u8, 0x75u8, 0x73u8, 0x61u8, 0x62u8, 0x6cu8, 0x65u8]
}

/// The text `Option<`.
pub open spec fn option_prefix() -> Seq<u8> {
    seq![0x4fu8, 0x70u8, 0x74u8, 0x69u8, 0x6fu8, 0x6eu8, 0x3cu8]
}

/// The first index at or after `pos` that holds a comma, or the length of
/// `s` when none follows.
pub open spec fn comma_from(s: Seq<u8>, pos: int) -> int
    decreases s.len() - pos,
{
    if 0 <= pos < s.len() && s[pos] != COMMA {
        comma_from(s, pos + 1)
    } else {
        pos
    }
}

/// The flag is one of the flags that `args` lists from `pos` on. The flags
/// stand between commas; white space around a flag does not count.
pub open spec fn has_flag(args: Seq<u8>, flag: Seq<u8>, pos: int) -> bool
    decreases args.len() - pos,
{
    let end = comma_from(args, pos);
    if !(0 <= pos <= end <= args.len()) {
        false
    } else if trim(args.subrange(pos, end)) == flag {
        true
    } else if end >= args.len() {
        false
    } else {
        has_flag(args, flag, end + 1)
    }
}

/// A pattern of that text stands among the first `n` parameters.
pub open spec fn pattern_before(params: Seq<ParameterModel>, n: int, pattern: Seq<u8>) -> bool {
    exists|i: int| 0 <= i < n && (#[trigger] params[i]).pattern == pattern
}

/// A parameter follows a binding convention when its pattern is an
/// identifier that no earlier parameter has and its type is not empty.
pub open spec fn is_matched(params: Seq<ParameterModel>, i: int) -> bool {
    &&& is_ident(params[i].pattern)
    &&& params[i].ty.len() > 0
    &&& !pattern_before(params, i, params[i].pattern)
}

/// The index of the first of the first `n` parameters that follows no
/// convention, or `n` when each of them follows one.
pub open spec fn first_unmatched(params: Seq<ParameterModel>, n: int) -> int
    decreases n,
{
    if n <= 0 {
        0
    } else {
        let before = first_unmatched(params, n - 1);
        if before < n - 1 {
            before
        } else if is_matched(params, n - 1) {
            n
        } else {
            n - 1
        }
    }
}

/// The fields that the first `n` parameters give the properties structure:
/// one for each parameter, under its name and with its type, in the order
/// declared; required unless its type starts with `Option<`.
pub open spec fn fields_of(params: Seq<ParameterModel>, n: int) -> Seq<PropFieldModel>
    decreases n,
{
    if n <= 0 {
        Seq::empty()
    } else {
        fields_of(params, n - 1).push(
            PropFieldModel {
                name: params[n - 1].pattern,
                ty: params[n - 1].ty,
                required: !occurs_at(params[n - 1].ty, option_prefix(), 0),
            },
        )
    }
}

/// The fields mirror the parameters: there is one field for each parameter,
/// in the order declared, with the parameter's name and type; none is left
/// out and none stands twice.
pub proof fn lemma_fields_mirror(params: Seq<ParameterModel>, n: int)
    requires
        0 <= n <= params.len(),
    ensures
        fields_of(params, n).len() == n,
        forall|i: int|
            0 <= i < n ==> (#[trigger] fields_of(params, n)[i]).name == params[i].pattern
                && fields_of(params, n)[i].ty == params[i].ty && fields_of(params, n)[i].required
                == !occurs_at(params[i].ty, option_prefix(), 0),
    decreases n,
{
    if n > 0 {
        lemma_fields_mirror(params, n - 1);
    }
}

/// The names of the fields, in order.
pub open spec fn field_names(fields: Seq<PropFieldModel>) -> Seq<Seq<u8>> {
    Seq::new(fields.len(), |i: int| fields[i].name)
}

/// What a function with these arguments transforms to.
pub open spec fn transformed(args: Seq<u8>, f: FunctionModel) -> Result<
    ComponentModel,
    GenerationErrorModel,
> {
    let bad = first_unmatched(f.parameters, f.parameters.len() as int);
    if bad < f.parameters.len() {
        Err(
            GenerationErrorModel {
                kind: GenerationErrorKind::UnmatchedParameter,
                subject: f.name,
                name: f.parameters[bad].pattern,
            },
        )
    } else {
        let fields = fields_of(f.parameters, f.parameters.len() as int);
        Ok(
            ComponentModel {
                props: PropsModel {
                    name: f.name,
                    fields,
                    focusable: has_flag(args, focusable_name(), 0),
                },
                constructor: ConstructorModel {
                    name: f.name,
                    bindings: field_names(fields),
                    takes_children: pattern_before(
                        f.parameters,
                        f.parameters.len() as int,
                        children_name(),
                    ),
                    body: f.body,
                },
            },
        )
    }
}

fn children_text() -> (v: Vec<u8>)
    ensures
        v@ == children_name(),
{
    let v: Vec<u8> = vec![0x63, 0x68, 0x69, 0x6c, 0x64, 0x72, 0x65, 0x6e];
    assert(v@ =~= children_name());
    v
}

fn focusable_text() -> (v: Vec<u8>)
    ensures
        v@ == focusable_name(),
{
    let v: Vec<u8> = vec![0x66, 0x6f, 0x63, 0x75, 0x73, 0x61, 0x62, 0x6c, 0x65];
    assert(v@ =~= focusable_name());
    v
}

fn option_text() -> (v: Vec<u8>)
    ensures
        v@ == option_prefix(),
{
    let v: Vec<u8> = vec![0x4f, 0x70, 0x74, 0x69, 0x6f, 0x6e, 0x3c];
    assert(v@ =~= option_prefix());
    v
}

fn has_pattern_before(f: &FunctionDefinition, n: usize, pattern: &[u8]) -> (r: bool)
    requires
        n <= f.parameters.len(),
    ensures
        r == pattern_before(f@.parameters, n as int, pattern@),
{
    let mut i: usize = 0;
    while i < n
        invariant
            i <= n <= f.parameters.len(),
            forall|k: int| 0 <= k < i ==> (#[trigger] f@.parameters[k]).pattern != pattern@,
        decreases n - i,
    {
        if bytes_eq(f.parameters[i].pattern.as_slice(), pattern) {
            assert(f@.parameters[i as int].pattern == pattern@);
            return true;
        }
        i += 1;
    }
    false
}

fn comma_from_at(s: &[u8], pos: usize) -> (end: usize)
    requires
        pos <= s.len(),
    ensures
        end == comma_from(s@, pos as int),
        pos <= end <= s.len(),
{
    let mut p: usize = pos;
    while p < s.len() && s[p] != COMMA
        invariant
            pos <= p <= s.len(),
            comma_from(s@, pos as int) == comma_from(s@, p as int),
        decreases s.len() - p,
    {
        p += 1;
    }
    p
}

/// Tests whether a flag is one of the flags that `args` lists.
pub fn find_flag(args: &[u8], flag: &[u8]) -> (r: bool)
    ensures
        r == has_flag(args@, flag@, 0),
{
    let mut pos: usize = 0;
    loop
        invariant
            pos <= args.len(),
            has_flag(args@, flag@, 0) == has_flag(args@, flag@, pos as int),
        decreases args.len() - pos,
    {
        let end = comma_from_at(args, pos);
        let part = copy_range(args, pos, end);
        let name = trim_bytes(part.as_slice());
        if bytes_eq(name.as_slice(), flag) {
            return true;
        }
        if end >= args.len() {
            return false;
        }
        pos = end + 1;
    }
}

/// Transforms a function definition into a component. `args` is the text of
/// the flags given with the request, separated by commas; the component is
/// focusable when `focusable` is one of them.
///
/// Each parameter becomes a field of the properties structure, in the
/// order declared. Where one of the parameters is named `children`, the
/// constructor puts the children that it is handed into that field.
pub fn transform(args: &[u8], f: &FunctionDefinition) -> (r: Result<Component, GenerationError>)
    ensures
        match r {
            Ok(c) => transformed(args@, f@) == Ok::<ComponentModel, GenerationErrorModel>(c@),
            Err(e) => transformed(args@, f@) == Err::<ComponentModel, GenerationErrorModel>(e@),
        },
{
    let children = children_text();
    let option = option_text();
    let mut fields: Vec<PropField> = Vec::new();
    let mut bindings: Vec<Vec<u8>> = Vec::new();
    let mut i: usize = 0;
    while i < f.parameters.len()
        invariant
            i <= f.parameters.len(),
            children@ == children_name(),
            option@ == option_prefix(),
            first_unmatched(f@.parameters, i as int) == i,
            fields_view(fields@) == fields_of(f@.parameters, i as int),
            names_view(bindings@) == field_names(fields_view(fields@)),
        decreases f.parameters.len() - i,
    {
        let p = &f.parameters[i];
        assert(f@.parameters[i as int] == p@);
        if !check_ident(p.pattern.as_slice()) || p.ty.len() == 0 || has_pattern_before(
            f,
            i,
            p.pattern.as_slice(),
        ) {
            proof {
                lemma_unmatched_stays(f@.parameters, i + 1, f.parameters.len() as int);
            }
            return Err(
                GenerationError {
                    kind: GenerationErrorKind::UnmatchedParameter,
                    subject: copy_bytes(f.name.as_slice()),
                    name: copy_bytes(p.pattern.as_slice()),
                },
            );
        }
        let ghost before = fields_view(fields@);
        let ghost names = names_view(bindings@);
        let field = PropField {
            name: copy_bytes(p.pattern.as_slice()),
            ty: copy_bytes(p.ty.as_slice()),
            required: !has_text_at(p.ty.as_slice(), option.as_slice(), 0),
        };
        let ghost model = field@;
        fields.push(field);
        bindings.push(copy_bytes(p.pattern.as_slice()));
        assert(fields_view(fields@) == before.push(model));
        assert(names_view(bindings@) == names.push(model.name));
        assert(field_names(before.push(model)) == field_names(before).push(model.name));
        i += 1;
    }
    let takes_children = has_pattern_before(f, f.parameters.len(), children.as_slice());
    let focusable = focusable_text();
    Ok(
        Component {
            props: ComponentProps {
                name: copy_bytes(f.name.as_slice()),
                fields,
                focusable: find_flag(args, focusable.as_slice()),
            },
            constructor: Constructor {
                name: copy_bytes(f.name.as_slice()),
                bindings,
                takes_children,
                body: copy_bytes(f.body.as_slice()),
            },
        },
    )
}

/// Once a parameter without a convention is found, it stays the first.
pub proof fn lemma_unmatched_stays(params: Seq<ParameterModel>, n: int, m: int)
    requires
        0 <= n <= m,
        first_unmatched(params, n) < n,
    ensures
        first_unmatched(params, m) == first_unmatched(params, n),
    decreases m - n,
{
    if n < m {
        lemma_unmatched_stays(params, n, m - 1);
    }
}

} // verus!
