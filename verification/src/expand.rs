//! The code that `#[derive(SynthModuleParams)]` stands for, as source text.
//!
//! Generated paths start at `::synth_core`, so that module crates need nothing else in scope. A
//! float field keeps its number; the code converts it from and to the bit patterns of the library.

use vstd::prelude::*;
use crate::params::{AttrKey, FieldKind, field_kind, humanize, kind_of, unsupported, upper};
use crate::text::{joined3, stands_at, within};

verus! {

/// A named field of a struct of params. Types, expressions and literals are source text.
pub struct FieldDecl {
    pub name: String,
    pub ty: String,
    /// The last identifier of the type, if the type is a path.
    pub last_segment: Option<String>,
    /// What the `param` attributes give: a string literal and three expressions.
    pub label: Option<String>,
    pub default: Option<String>,
    pub min: Option<String>,
    pub max: Option<String>,
}

/// The contents of a [`FieldDecl`].
#[verifier::ext_equal]
pub struct FieldView {
    pub name: Seq<char>,
    pub ty: Seq<char>,
    pub last_segment: Option<Seq<char>>,
    pub label: Option<Seq<char>>,
    pub default: Option<Seq<char>>,
    pub min: Option<Seq<char>>,
    pub max: Option<Seq<char>>,
}

/// The contents of an optional string.
pub open spec fn text_of(s: Option<String>) -> Option<Seq<char>> {
    match s {
        Some(s) => Some(s@),
        None => None,
    }
}

impl View for FieldDecl {
    type V = FieldView;

    open spec fn view(&self) -> FieldView {
        FieldView {
            name: self.name@,
            ty: self.ty@,
            last_segment: text_of(self.last_segment),
            label: text_of(self.label),
            default: text_of(self.default),
            min: text_of(self.min),
            max: text_of(self.max),
        }
    }
}

/// What is given, or else the fallback.
pub open spec fn given_or(given: Option<Seq<char>>, fallback: Seq<char>) -> Seq<char> {
    match given {
        Some(text) => text,
        None => fallback,
    }
}

fn or_else<'a>(given: &'a Option<String>, fallback: &'a str) -> (text: &'a str)
    ensures
        text@ == given_or(text_of(*given), fallback@),
{
    match given {
        Some(text) => text.as_str(),
        None => fallback,
    }
}

impl FieldDecl {
    /// A field without `param` attributes.
    pub fn new(name: String, ty: String, last_segment: Option<String>) -> (decl: FieldDecl)
        ensures
            decl@ == (FieldView {
                name: name@,
                ty: ty@,
                last_segment: text_of(last_segment),
                label: None,
                default: None,
                min: None,
                max: None,
            }),
    {
        FieldDecl { name, ty, last_segment, label: None, default: None, min: None, max: None }
    }

    /// Records an attribute; a later one with the same key counts.
    pub fn set(&mut self, key: AttrKey, text: String)
        ensures
            final(self)@ == match key {
                AttrKey::Label => FieldView { label: Some(text@), ..old(self)@ },
                AttrKey::Default => FieldView { default: Some(text@), ..old(self)@ },
                AttrKey::Min => FieldView { min: Some(text@), ..old(self)@ },
                AttrKey::Max => FieldView { max: Some(text@), ..old(self)@ },
            },
    {
        match key {
            AttrKey::Label => {
                self.label = Some(text);
            },
            AttrKey::Default => {
                self.default = Some(text);
            },
            AttrKey::Min => {
                self.min = Some(text);
            },
            AttrKey::Max => {
                self.max = Some(text);
            },
        }
    }
}

/// What a derive is put on.
#[derive(Debug, Clone, Copy, PartialEq, Eq, Structural)]
pub enum Target {
    /// A struct with named fields.
    Named,
    /// Any other struct.
    OtherStruct,
    NoStruct,
}

/// Says why the code cannot be given for the target, if so.
pub fn target_fault(target: Target) -> (fault: Option<String>)
    ensures
        match target {
            Target::Named => fault is None,
            Target::OtherStruct => fault matches Some(e) && e@
                == "SynthModuleParams requires a struct with named fields"@,
            Target::NoStruct => fault matches Some(e) && e@
                == "SynthModuleParams can only be derived for structs"@,
        },
{
    match target {
        Target::Named => None,
        Target::OtherStruct => Some(
            "SynthModuleParams requires a struct with named fields".to_owned(),
        ),
        Target::NoStruct => Some("SynthModuleParams can only be derived for structs".to_owned()),
    }
}

/// A string literal for text that needs no escapes.
pub open spec fn quoted(text: Seq<char>) -> Seq<char> {
    "\""@ + text + "\""@
}

/// The default of a field: zero, or off, if none is given.
pub open spec fn default_of(kind: FieldKind, f: FieldView) -> Seq<char> {
    given_or(
        f.default,
        match kind {
            FieldKind::Float => "0.0"@,
            FieldKind::Int => "0"@,
            FieldKind::Bool => "false"@,
        },
    )
}

fn pick_default(kind: FieldKind, f: &FieldDecl) -> (text: &str)
    ensures
        text@ == default_of(kind, f@),
{
    match kind {
        FieldKind::Float => or_else(&f.default, "0.0"),
        FieldKind::Int => or_else(&f.default, "0"),
        FieldKind::Bool => or_else(&f.default, "false"),
    }
}

/// The kind of the param: with the range that is given, or the full range.
pub open spec fn kind_code(kind: FieldKind, f: FieldView) -> Seq<char> {
    match kind {
        FieldKind::Float => "::synth_core::module::ParamKind::Float { min: (("@ + given_or(
            f.min,
            "f32::MIN"@,
        ) + ") as f32).to_bits(), max: (("@ + given_or(f.max, "f32::MAX"@)
            + ") as f32).to_bits() }"@,
        FieldKind::Int => "::synth_core::module::ParamKind::Int { min: "@ + given_or(
            f.min,
            "i64::MIN"@,
        ) + ", max: "@ + given_or(f.max, "i64::MAX"@) + " }"@,
        FieldKind::Bool => "::synth_core::module::ParamKind::Bool"@,
    }
}

fn write_kind(kind: FieldKind, f: &FieldDecl) -> (code: String)
    ensures
        code@ == kind_code(kind, f@),
{
    match kind {
        FieldKind::Float => {
            let mut code: String = "::synth_core::module::ParamKind::Float { min: ((".to_owned();
            code.append(or_else(&f.min, "f32::MIN"));
            code.append(") as f32).to_bits(), max: ((");
            code.append(or_else(&f.max, "f32::MAX"));
            code.append(") as f32).to_bits() }");
            code
        },
        FieldKind::Int => {
            let mut code: String = "::synth_core::module::ParamKind::Int { min: ".to_owned();
            code.append(or_else(&f.min, "i64::MIN"));
            code.append(", max: ");
            code.append(or_else(&f.max, "i64::MAX"));
            code.append(" }");
            code
        },
        FieldKind::Bool => "::synth_core::module::ParamKind::Bool".to_owned(),
    }
}

/// The descriptor's default value.
pub open spec fn value_code(kind: FieldKind, f: FieldView) -> Seq<char> {
    match kind {
        FieldKind::Float => "::synth_core::model::ParamValue::Float((("@ + default_of(kind, f)
            + ") as f64).to_bits())"@,
        FieldKind::Int => "::synth_core::model::ParamValue::Int(("@ + default_of(kind, f)
            + ") as i64)"@,
        FieldKind::Bool => "::synth_core::model::ParamValue::Bool("@ + default_of(kind, f) + ")"@,
    }
}

fn write_value(kind: FieldKind, f: &FieldDecl) -> (code: String)
    ensures
        code@ == value_code(kind, f@),
{
    let default: &str = pick_default(kind, f);
    match kind {
        FieldKind::Float => joined3(
            "::synth_core::model::ParamValue::Float(((",
            default,
            ") as f64).to_bits())",
        ),
        FieldKind::Int => joined3("::synth_core::model::ParamValue::Int((", default, ") as i64)"),
        FieldKind::Bool => joined3("::synth_core::model::ParamValue::Bool(", default, ")"),
    }
}

/// The field's value where none is stored, or one that does not fit.
pub open spec fn missing_code(kind: FieldKind, f: FieldView) -> Seq<char> {
    match kind {
        FieldKind::Bool => default_of(kind, f),
        _ => "("@ + default_of(kind, f) + ") as "@ + f.ty,
    }
}

fn write_missing(kind: FieldKind, f: &FieldDecl) -> (code: String)
    ensures
        code@ == missing_code(kind, f@),
{
    let default: &str = pick_default(kind, f);
    match kind {
        FieldKind::Bool => default.to_owned(),
        _ => {
            let mut code: String = joined3("(", default, ") as ");
            code.append(f.ty.as_str());
            code
        },
    }
}

/// The conversion of a stored value.
pub open spec fn read_code(kind: FieldKind, f: FieldView) -> Seq<char> {
    match kind {
        FieldKind::Float => "v.as_f64(fp).map(|x| f64::from_bits(x) as "@ + f.ty + ")"@,
        FieldKind::Int => "v.as_i64(fp)"@,
        FieldKind::Bool => "v.as_bool()"@,
    }
}

fn write_read(kind: FieldKind, f: &FieldDecl) -> (code: String)
    ensures
        code@ == read_code(kind, f@),
{
    match kind {
        FieldKind::Float => joined3(
            "v.as_f64(fp).map(|x| f64::from_bits(x) as ",
            f.ty.as_str(),
            ")",
        ),
        FieldKind::Int => "v.as_i64(fp)".to_owned(),
        FieldKind::Bool => "v.as_bool()".to_owned(),
    }
}

/// The field's descriptor, with the given label.
pub open spec fn desc_code(kind: FieldKind, f: FieldView, label: Seq<char>) -> Seq<char> {
    "::synth_core::module::ParamDesc { name: "@ + quoted(f.name) + ".into(), label: "@ + label
        + ".into(), kind: "@ + kind_code(kind, f) + ", default: "@ + value_code(kind, f) + " }, "@
}

/// The field's initializer: the stored value where there is one that fits, else the default.
pub open spec fn init_code(kind: FieldKind, f: FieldView) -> Seq<char> {
    f.name + ": values.get("@ + quoted(f.name) + ").and_then(|v| "@ + read_code(kind, f)
        + ").unwrap_or_else(|| "@ + missing_code(kind, f) + "), "@
}

/// The code for one field.
pub struct FieldCode {
    pub desc: String,
    pub init: String,
}

/// Writes the code for a field of the given kind and label.
pub fn code_of(kind: FieldKind, f: &FieldDecl, label: &str) -> (code: FieldCode)
    ensures
        code.desc@ == desc_code(kind, f@, label@),
        code.init@ == init_code(kind, f@),
{
    let name: String = joined3("\"", f.name.as_str(), "\"");
    let mut desc: String = "::synth_core::module::ParamDesc { name: ".to_owned();
    desc.append(name.as_str());
    desc.append(".into(), label: ");
    desc.append(label);
    desc.append(".into(), kind: ");
    desc.append(write_kind(kind, f).as_str());
    desc.append(", default: ");
    desc.append(write_value(kind, f).as_str());
    desc.append(" }, ");

    let mut init: String = f.name.clone();
    init.append(": values.get(");
    init.append(name.as_str());
    init.append(").and_then(|v| ");
    init.append(write_read(kind, f).as_str());
    init.append(").unwrap_or_else(|| ");
    init.append(write_missing(kind, f).as_str());
    init.append("), ");
    FieldCode { desc, init }
}

/// The label of a field: the one that is given, or else its name with the first character in
/// upper case.
pub open spec fn label_code(f: FieldView) -> Seq<char> {
    given_or(
        f.label,
        quoted(
            if f.name.len() == 0 {
                f.name
            } else {
                upper(f.name[0]) + f.name.skip(1)
            },
        ),
    )
}

/// Writes the code for a field, or says why its type will not do.
pub fn field_code(f: &FieldDecl) -> (code: Result<FieldCode, String>)
    ensures
        match (code, kind_of(f@.last_segment)) {
            (Ok(code), Some(kind)) => {
                &&& code.desc@ == desc_code(kind, f@, label_code(f@))
                &&& code.init@ == init_code(kind, f@)
            },
            (Err(e), None) => e@ == unsupported(f@.last_segment),
            _ => false,
        },
{
    let last: Option<&str> = match &f.last_segment {
        Some(name) => Some(name.as_str()),
        None => None,
    };
    let kind: FieldKind = match field_kind(last) {
        Ok(kind) => kind,
        Err(e) => {
            return Err(e);
        },
    };
    let fallback: String = joined3("\"", humanize(f.name.as_str()).as_str(), "\"");
    Ok(code_of(kind, f, or_else(&f.label, fallback.as_str())))
}

/// The descriptors of the first `n` fields.
pub open spec fn all_descs(fields: Seq<FieldCode>, n: int) -> Seq<char>
    decreases n,
{
    if n <= 0 {
        Seq::empty()
    } else {
        all_descs(fields, n - 1) + fields[n - 1].desc@
    }
}

/// The initializers of the first `n` fields.
pub open spec fn all_inits(fields: Seq<FieldCode>, n: int) -> Seq<char>
    decreases n,
{
    if n <= 0 {
        Seq::empty()
    } else {
        all_inits(fields, n - 1) + fields[n - 1].init@
    }
}

/// The impl of the trait for a struct of params.
pub open spec fn params_code(name: Seq<char>, descs: Seq<char>, inits: Seq<char>) -> Seq<char> {
    "impl<F: Fn(::synth_core::float::FloatOp) -> u64> ::synth_core::module::SynthModuleParams<F> for "@
        + name
        + " { fn param_descs() -> ::std::vec::Vec<::synth_core::module::ParamDesc> { ::std::vec![ "@
        + descs
        + "] } fn from_values(values: &::synth_core::model::Params, fp: &F) -> Self { Self { "@
        + inits + "} } }"@
}

/// Writes the impl of the trait for a struct of params with the given fields.
pub fn impl_code(name: &str, fields: &Vec<FieldCode>) -> (code: String)
    ensures
        code@ == params_code(
            name@,
            all_descs(fields@, fields@.len() as int),
            all_inits(fields@, fields@.len() as int),
        ),
{
    let mut descs: String = String::new();
    let mut inits: String = String::new();
    let mut i: usize = 0;
    while i < fields.len()
        invariant
            i <= fields.len(),
            descs@ == all_descs(fields@, i as int),
            inits@ == all_inits(fields@, i as int),
        decreases fields.len() - i,
    {
        descs.append(fields[i].desc.as_str());
        inits.append(fields[i].init.as_str());
        i = i + 1;
    }
    let mut code: String =
        "impl<F: Fn(::synth_core::float::FloatOp) -> u64> ::synth_core::module::SynthModuleParams<F> for ".to_owned();
    code.append(name);
    code.append(
        " { fn param_descs() -> ::std::vec::Vec<::synth_core::module::ParamDesc> { ::std::vec![ ",
    );
    code.append(descs.as_str());
    code.append(
        "] } fn from_values(values: &::synth_core::model::Params, fp: &F) -> Self { Self { ",
    );
    code.append(inits.as_str());
    code.append("} } }");
    code
}

proof fn lemma_between(a: Seq<char>, b: Seq<char>, c: Seq<char>)
    ensures
        within(b, a + b + c),
{
    let at = a.len() as int;
    assert((a + b + c).subrange(at, at + b.len()) =~= b);
    assert(stands_at(b, a + b + c, at));
}

proof fn lemma_within_within(a: Seq<char>, b: Seq<char>, c: Seq<char>)
    requires
        within(a, b),
        within(b, c),
    ensures
        within(a, c),
{
    let i = choose|i: int| stands_at(a, b, i);
    let j = choose|j: int| stands_at(b, c, j);
    assert(c.subrange(i + j, i + j + a.len()) =~= b.subrange(i, i + a.len()));
    assert(stands_at(a, c, i + j));
}

/// The default of a field feeds both its descriptor and its conversion.
pub proof fn law_default_feeds_both(kind: FieldKind, f: FieldView, label: Seq<char>)
    ensures
        within(default_of(kind, f), desc_code(kind, f, label)),
        within(default_of(kind, f), init_code(kind, f)),
{
    let default = default_of(kind, f);
    match kind {
        FieldKind::Float => {
            lemma_between("::synth_core::model::ParamValue::Float((("@, default, ") as f64).to_bits())"@);
        },
        FieldKind::Int => {
            lemma_between("::synth_core::model::ParamValue::Int(("@, default, ") as i64)"@);
        },
        FieldKind::Bool => {
            lemma_between("::synth_core::model::ParamValue::Bool("@, default, ")"@);
        },
    }
    lemma_between(
        "::synth_core::module::ParamDesc { name: "@ + quoted(f.name) + ".into(), label: "@ + label
            + ".into(), kind: "@ + kind_code(kind, f) + ", default: "@,
        value_code(kind, f),
        " }, "@,
    );
    lemma_within_within(default, value_code(kind, f), desc_code(kind, f, label));

    match kind {
        FieldKind::Bool => {
            assert(Seq::<char>::empty() + default + Seq::empty() =~= missing_code(kind, f));
            lemma_between(Seq::empty(), default, Seq::empty());
        },
        _ => {
            assert("("@ + default + (") as "@ + f.ty) =~= missing_code(kind, f));
            lemma_between("("@, default, ") as "@ + f.ty);
        },
    }
    lemma_between(
        f.name + ": values.get("@ + quoted(f.name) + ").and_then(|v| "@ + read_code(kind, f)
            + ").unwrap_or_else(|| "@,
        missing_code(kind, f),
        "), "@,
    );
    lemma_within_within(default, missing_code(kind, f), init_code(kind, f));
}

/// A field's name, label and type reach its code: the name, as a string literal, both the descriptor
/// and the conversion, the label the descriptor, and the type of a number the conversion.
pub proof fn law_field_reaches_its_code(kind: FieldKind, f: FieldView, label: Seq<char>)
    ensures
        within(quoted(f.name), desc_code(kind, f, label)),
        within(label, desc_code(kind, f, label)),
        within(kind_code(kind, f), desc_code(kind, f, label)),
        within(quoted(f.name), init_code(kind, f)),
        kind == FieldKind::Float ==> within(f.ty, init_code(kind, f)),
        stands_at(f.name, init_code(kind, f), 0),
{
    let desc = desc_code(kind, f, label);
    let init = init_code(kind, f);
    let a = "::synth_core::module::ParamDesc { name: "@;
    let tail = ", default: "@ + value_code(kind, f) + " }, "@;
    let after_label = ".into(), kind: "@ + kind_code(kind, f) + tail;
    assert(desc =~= a + quoted(f.name) + (".into(), label: "@ + label + after_label));
    lemma_between(a, quoted(f.name), ".into(), label: "@ + label + after_label);
    assert(desc =~= (a + quoted(f.name) + ".into(), label: "@) + label + after_label);
    lemma_between(a + quoted(f.name) + ".into(), label: "@, label, after_label);
    let head = a + quoted(f.name) + ".into(), label: "@ + label + ".into(), kind: "@;
    assert(desc =~= head + kind_code(kind, f) + tail);
    lemma_between(head, kind_code(kind, f), tail);
    let rest = ").and_then(|v| "@ + read_code(kind, f) + ").unwrap_or_else(|| "@ + missing_code(
        kind,
        f,
    ) + "), "@;
    assert(init =~= (f.name + ": values.get("@) + quoted(f.name) + rest);
    lemma_between(f.name + ": values.get("@, quoted(f.name), rest);
    assert(init.subrange(0, f.name.len() as int) =~= f.name);
    if kind == FieldKind::Float {
        let before = f.name + ": values.get("@ + quoted(f.name) + ").and_then(|v| "@;
        let after = ").unwrap_or_else(|| "@ + missing_code(kind, f) + "), "@;
        lemma_between("v.as_f64(fp).map(|x| f64::from_bits(x) as "@, f.ty, ")"@);
        assert(init =~= before + read_code(kind, f) + after);
        lemma_between(before, read_code(kind, f), after);
        lemma_within_within(f.ty, read_code(kind, f), init);
    }
}

/// The first text stands in the code somewhere before the second.
pub open spec fn in_sequence(first: Seq<char>, second: Seq<char>, code: Seq<char>) -> bool {
    exists|i: int, j: int| #[trigger]
        stands_at(first, code, i) && i + first.len() < j && #[trigger] stands_at(second, code, j)
}

/// The bounds of a number stand in its descriptor in order, the lower one first: those that are given,
/// or else the ends of the type's range.
pub proof fn law_bounds_stand_in_order(kind: FieldKind, f: FieldView)
    ensures
        kind == FieldKind::Float ==> in_sequence(
            given_or(f.min, "f32::MIN"@),
            given_or(f.max, "f32::MAX"@),
            kind_code(kind, f),
        ),
        kind == FieldKind::Int ==> in_sequence(
            given_or(f.min, "i64::MIN"@),
            given_or(f.max, "i64::MAX"@),
            kind_code(kind, f),
        ),
{
    reveal_strlit(") as f32).to_bits(), max: ((");
    reveal_strlit(", max: ");
    match kind {
        FieldKind::Float => {
            lemma_in_sequence(
                "::synth_core::module::ParamKind::Float { min: (("@,
                given_or(f.min, "f32::MIN"@),
                ") as f32).to_bits(), max: (("@,
                given_or(f.max, "f32::MAX"@),
                ") as f32).to_bits() }"@,
            );
        },
        FieldKind::Int => {
            lemma_in_sequence(
                "::synth_core::module::ParamKind::Int { min: "@,
                given_or(f.min, "i64::MIN"@),
                ", max: "@,
                given_or(f.max, "i64::MAX"@),
                " }"@,
            );
        },
        FieldKind::Bool => {},
    }
}

proof fn lemma_in_sequence(a: Seq<char>, first: Seq<char>, b: Seq<char>, second: Seq<char>, c: Seq<char>)
    requires
        b.len() > 0,
    ensures
        in_sequence(first, second, a + first + b + second + c),
{
    let code = a + first + b + second + c;
    let i = a.len() as int;
    let j = (a + first + b).len() as int;
    assert(code.subrange(i, i + first.len()) =~= first);
    assert(code.subrange(j, j + second.len()) =~= second);
    assert(stands_at(first, code, i) && stands_at(second, code, j));
}

/// The fields' codes follow one another in the order of the fields, with nothing between them.
pub proof fn law_fields_come_in_order(fields: Seq<FieldCode>, k: int, n: int)
    requires
        0 <= k < n <= fields.len(),
    ensures
        stands_at(
            fields[k].desc@,
            all_descs(fields, n),
            all_descs(fields, k).len() as int,
        ),
        stands_at(
            fields[k].init@,
            all_inits(fields, n),
            all_inits(fields, k).len() as int,
        ),
        all_descs(fields, k + 1).len() == all_descs(fields, k).len() + fields[k].desc@.len(),
        all_inits(fields, k + 1).len() == all_inits(fields, k).len() + fields[k].init@.len(),
    decreases n,
{
    let at = all_descs(fields, k).len() as int;
    let to = all_inits(fields, k).len() as int;
    let d = fields[k].desc@;
    let e = fields[k].init@;
    if k < n - 1 {
        law_fields_come_in_order(fields, k, n - 1);
        assert(all_descs(fields, n).subrange(at, at + d.len()) =~= all_descs(fields, n - 1).subrange(
            at,
            at + d.len(),
        ));
        assert(all_inits(fields, n).subrange(to, to + e.len()) =~= all_inits(fields, n - 1).subrange(
            to,
            to + e.len(),
        ));
    } else {
        assert(all_descs(fields, n).subrange(at, at + d.len()) =~= d);
        assert(all_inits(fields, n).subrange(to, to + e.len()) =~= e);
    }
}

} // verus!
