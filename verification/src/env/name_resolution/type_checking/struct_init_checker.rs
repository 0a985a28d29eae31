//! Checks the parameters of a struct initialization against the fields of the struct, the
//! types compared for equality.
use crate::ast::{Field, Parameter};
use crate::env::checks::type_checking::types::{spec_type_label, type_label, Types};
use crate::names::{copy_bytes, Ident, Table, TableKey};
use vstd::prelude::*;

verus! {

/// Why parameters do not fit the fields of a struct.
#[derive(Debug, PartialEq, Eq)]
pub enum Error {
    /// A field without default value that no parameter supplies.
    FieldNotSupplied(Vec<u8>),
    /// More parameters than fields.
    TooManyField { expected: usize, found: usize },
    /// A parameter whose type is not that of its field.
    TypeMismatch { field: Vec<u8>, expected: Vec<u8>, found: Vec<u8> },
}

/// The outcome of a check, as spec values.
pub enum SpecOutcome {
    Fits,
    NotSupplied(Seq<u8>),
    TooMany(nat, nat),
    Mismatch(Seq<u8>, Types, Types),
}

impl Error {
    /// The error is the spec outcome.
    pub open spec fn matches(&self, o: SpecOutcome) -> bool {
        match (self, o) {
            (Error::FieldNotSupplied(n), SpecOutcome::NotSupplied(m)) => n@ == m,
            (Error::TooManyField { expected, found }, SpecOutcome::TooMany(e, f)) => *expected == e && *found == f,
            (Error::TypeMismatch { field, expected, found }, SpecOutcome::Mismatch(n, e, f)) => field@ == n
                && expected@ == spec_type_label(e) && found@ == spec_type_label(f),
            _ => false,
        }
    }
}

/// The result is the spec outcome.
pub open spec fn result_matches(r: Result<(), Error>, o: SpecOutcome) -> bool {
    match r {
        Ok(()) => o is Fits,
        Err(e) => e.matches(o),
    }
}

/// Plain parameters, matched in order: a parameter of the type of the next field goes to
/// it; a field whose type differs is skipped where it has a default value, and is a
/// mismatch where it has none; fields left over must have default values. `None` where
/// parameters are left over when the fields are used up.
pub open spec fn plain_check(fields: Seq<Field>, field_types: Seq<Types>, parameter_types: Seq<Types>) -> Option<SpecOutcome>
    decreases fields.len(),
{
    if fields.len() == 0 || field_types.len() == 0 {
        if parameter_types.len() == 0 {
            Some(SpecOutcome::Fits)
        } else {
            None
        }
    } else if parameter_types.len() == 0 {
        if fields[0].default_value is Some {
            Some(SpecOutcome::Fits)
        } else {
            Some(SpecOutcome::NotSupplied(fields[0].name@))
        }
    } else if field_types[0] == parameter_types[0] {
        plain_check(fields.drop_first(), field_types.drop_first(), parameter_types.drop_first())
    } else if fields[0].default_value is None {
        Some(SpecOutcome::Mismatch(fields[0].name@, field_types[0], parameter_types[0]))
    } else {
        plain_check(fields.drop_first(), field_types.drop_first(), parameter_types)
    }
}

/// The label of a parameter, if it has one.
pub open spec fn label_of(p: Parameter) -> Option<Seq<u8>> {
    match p {
        Parameter::Labelled { label, .. } => Some(label@),
        Parameter::Plain(_) => None,
    }
}

/// The type of the last of the first `n` parameters labelled with the name.
pub open spec fn label_type(parameters: Seq<Parameter>, parameter_types: Seq<Types>, n: int, name: Seq<u8>) -> Option<Types>
    decreases n,
{
    if n <= 0 {
        None
    } else if label_of(parameters[n - 1]) == Some(name) {
        Some(parameter_types[n - 1])
    } else {
        label_type(parameters, parameter_types, n - 1, name)
    }
}

/// Labelled parameters, matched by name: each field whose name labels a parameter must have
/// its type; a field that no label names must have a default value.
pub open spec fn labelled_check(fields: Seq<Field>, field_types: Seq<Types>, parameters: Seq<Parameter>, parameter_types: Seq<Types>) -> SpecOutcome
    decreases fields.len(),
{
    let n = if parameters.len() < parameter_types.len() { parameters.len() as int } else { parameter_types.len() as int };
    if fields.len() == 0 || field_types.len() == 0 {
        SpecOutcome::Fits
    } else {
        match label_type(parameters, parameter_types, n, fields[0].name@) {
            Some(t) => if t != field_types[0] {
                SpecOutcome::Mismatch(fields[0].name@, field_types[0], t)
            } else {
                labelled_check(fields.drop_first(), field_types.drop_first(), parameters, parameter_types)
            },
            None => if fields[0].default_value is None {
                SpecOutcome::NotSupplied(fields[0].name@)
            } else {
                labelled_check(fields.drop_first(), field_types.drop_first(), parameters, parameter_types)
            },
        }
    }
}

/// The sequence with the items at `i` and `i + 1` exchanged.
pub open spec fn swapped<T>(s: Seq<T>, i: int) -> Seq<T> {
    s.update(i, s[i + 1]).update(i + 1, s[i])
}

proof fn lemma_label_type_swapped(parameters: Seq<Parameter>, parameter_types: Seq<Types>, i: int, n: int, name: Seq<u8>)
    requires
        0 <= i,
        i + 1 < parameters.len(),
        parameters.len() == parameter_types.len(),
        !(label_of(parameters[i]) is Some && label_of(parameters[i]) == label_of(parameters[i + 1])),
        n <= i || i + 2 <= n,
        n <= parameters.len(),
    ensures
        label_type(swapped(parameters, i), swapped(parameter_types, i), n, name) == label_type(
            parameters,
            parameter_types,
            n,
            name,
        ),
    decreases n,
{
    let ps = swapped(parameters, i);
    let ts = swapped(parameter_types, i);
    if n <= 0 {
    } else if n <= i {
        assert(ps[n - 1] == parameters[n - 1]);
        assert(ts[n - 1] == parameter_types[n - 1]);
        lemma_label_type_swapped(parameters, parameter_types, i, n - 1, name);
    } else if n > i + 2 {
        assert(ps[n - 1] == parameters[n - 1]);
        assert(ts[n - 1] == parameter_types[n - 1]);
        lemma_label_type_swapped(parameters, parameter_types, i, n - 1, name);
    } else {
        assert(ps[i + 1] == parameters[i]);
        assert(ps[i] == parameters[i + 1]);
        assert(ts[i + 1] == parameter_types[i]);
        assert(ts[i] == parameter_types[i + 1]);
        lemma_label_type_swapped(parameters, parameter_types, i, i, name);
    }
}

/// Labelled parameters may be given in any order: exchanging two neighbours that do not
/// carry the same label, with their types, gives the same outcome; any order of parameters
/// with distinct labels is reached by such exchanges.
pub proof fn lemma_labelled_check_order(
    fields: Seq<Field>,
    field_types: Seq<Types>,
    parameters: Seq<Parameter>,
    parameter_types: Seq<Types>,
    i: int,
)
    requires
        0 <= i,
        i + 1 < parameters.len(),
        parameters.len() == parameter_types.len(),
        !(label_of(parameters[i]) is Some && label_of(parameters[i]) == label_of(parameters[i + 1])),
    ensures
        labelled_check(fields, field_types, swapped(parameters, i), swapped(parameter_types, i)) == labelled_check(
            fields,
            field_types,
            parameters,
            parameter_types,
        ),
    decreases fields.len(),
{
    if fields.len() > 0 && field_types.len() > 0 {
        lemma_label_type_swapped(parameters, parameter_types, i, parameters.len() as int, fields[0].name@);
        lemma_labelled_check_order(fields.drop_first(), field_types.drop_first(), parameters, parameter_types, i);
    }
}

/// No two parameters carry the same label.
pub open spec fn distinct_labels(parameters: Seq<Parameter>) -> bool {
    forall|a: int, b: int|
        0 <= a < b < parameters.len() && (#[trigger] label_of(parameters[a])) is Some ==> label_of(parameters[a])
            != #[trigger] label_of(parameters[b])
}

/// Some parameter carries the label `name` and has the type `t`.
pub open spec fn labels_with(parameters: Seq<Parameter>, parameter_types: Seq<Types>, name: Seq<u8>, t: Types) -> bool {
    exists|k: int| 0 <= k < parameters.len() && label_of(#[trigger] parameters[k]) == Some(name) && parameter_types[k] == t
}

/// Both lists give each label the same type.
pub open spec fn same_labelled_types(
    parameters: Seq<Parameter>,
    parameter_types: Seq<Types>,
    others: Seq<Parameter>,
    other_types: Seq<Types>,
) -> bool {
    forall|name: Seq<u8>, t: Types| #[trigger] labels_with(parameters, parameter_types, name, t) == labels_with(others, other_types, name, t)
}

proof fn lemma_label_type_found(parameters: Seq<Parameter>, parameter_types: Seq<Types>, n: int, name: Seq<u8>)
    requires
        0 <= n <= parameters.len(),
        parameters.len() == parameter_types.len(),
        distinct_labels(parameters),
    ensures
        label_type(parameters, parameter_types, n, name) matches Some(t) ==> exists|k: int|
            0 <= k < n && label_of(#[trigger] parameters[k]) == Some(name) && parameter_types[k] == t,
        forall|k: int|
            0 <= k < n && label_of(#[trigger] parameters[k]) == Some(name) ==> label_type(parameters, parameter_types, n, name)
                == Some(parameter_types[k]),
    decreases n,
{
    if n > 0 {
        lemma_label_type_found(parameters, parameter_types, n - 1, name);
        if label_of(parameters[n - 1]) == Some(name) {
            assert forall|k: int| 0 <= k < n - 1 implies #[trigger] label_of(parameters[k]) != Some(name) by {
                assert(label_of(parameters[k]) != label_of(parameters[n - 1]));
            }
        }
    }
}

/// Labelled parameters may be given in any order: two lists of parameters, each carrying
/// every label at most once and giving each label the same type, get the same outcome.
pub proof fn lemma_labelled_check_any_order(
    fields: Seq<Field>,
    field_types: Seq<Types>,
    parameters: Seq<Parameter>,
    parameter_types: Seq<Types>,
    others: Seq<Parameter>,
    other_types: Seq<Types>,
)
    requires
        parameters.len() == parameter_types.len(),
        others.len() == other_types.len(),
        distinct_labels(parameters),
        distinct_labels(others),
        same_labelled_types(parameters, parameter_types, others, other_types),
    ensures
        labelled_check(fields, field_types, others, other_types) == labelled_check(fields, field_types, parameters, parameter_types),
    decreases fields.len(),
{
    if fields.len() > 0 && field_types.len() > 0 {
        let name = fields[0].name@;
        lemma_label_type_found(parameters, parameter_types, parameters.len() as int, name);
        lemma_label_type_found(others, other_types, others.len() as int, name);
        let a = label_type(parameters, parameter_types, parameters.len() as int, name);
        let b = label_type(others, other_types, others.len() as int, name);
        match a {
            Some(t) => {
                assert(labels_with(parameters, parameter_types, name, t));
                assert(labels_with(others, other_types, name, t));
                let j = choose|j: int| 0 <= j < others.len() && label_of(#[trigger] others[j]) == Some(name) && other_types[j] == t;
                assert(b == Some(other_types[j]));
            },
            None => {
                match b {
                    Some(t) => {
                        assert(labels_with(others, other_types, name, t));
                        assert(labels_with(parameters, parameter_types, name, t));
                        let k = choose|k: int|
                            0 <= k < parameters.len() && label_of(#[trigger] parameters[k]) == Some(name) && parameter_types[k] == t;
                        assert(a == Some(parameter_types[k]));
                    },
                    None => {},
                }
            },
        }
        assert(a == b);
        lemma_labelled_check_any_order(fields.drop_first(), field_types.drop_first(), parameters, parameter_types, others, other_types);
    }
}

/// Checks parameters against the fields of a struct and their types.
pub struct StructInitChecker<'f> {
    pub fields: &'f [Field],
    pub field_types: Vec<Types>,
}

impl<'f> StructInitChecker<'f> {
    /// A checker for the fields and their types.
    pub fn with_fields(fields: &'f [Field], field_types: Vec<Types>) -> (c: Self)
        ensures
            c.fields@ == fields@,
            c.field_types@ == field_types@,
    {
        StructInitChecker { fields, field_types }
    }

    /// Checks the parameters and their types: too many parameters are an error; no
    /// parameters fit where the first field has a default value or there are no fields;
    /// otherwise the parameters are matched by label where the first has one, in order where
    /// it has none.
    pub fn check_parameters(&self, parameters: &[Parameter], parameter_types: Vec<Types>) -> (res: Result<(), Error>)
        requires
            parameters@.len() > 0 && parameters@[0] is Labelled ==> forall|i: int|
                0 <= i < parameters@.len() ==> #[trigger] parameters@[i] is Labelled,
            !(parameters@.len() > 0 && parameters@[0] is Labelled) && parameters@.len() <= self.fields@.len()
                ==> plain_check(self.fields@, self.field_types@, parameter_types@) is Some,
        ensures
            result_matches(res, if parameters@.len() > self.fields@.len() {
                SpecOutcome::TooMany(self.fields@.len(), parameters@.len())
            } else if parameters@.len() == 0 {
                if self.fields@.len() == 0 || self.fields@[0].default_value is Some {
                    SpecOutcome::Fits
                } else {
                    SpecOutcome::NotSupplied(self.fields@[0].name@)
                }
            } else if parameters@[0] is Labelled {
                labelled_check(self.fields@, self.field_types@, parameters@, parameter_types@)
            } else {
                plain_check(self.fields@, self.field_types@, parameter_types@)->0
            }),
    {
        if parameters.len() > self.fields.len() {
            Err(Error::TooManyField { expected: self.fields.len(), found: parameters.len() })
        } else if parameters.len() == 0 {
            if self.fields.len() == 0 || self.fields[0].default_value.is_some() {
                Ok(())
            } else {
                Err(Error::FieldNotSupplied(copy_bytes(self.fields[0].name.as_slice())))
            }
        } else if parameters[0].is_labelled() {
            self.check_labelled_parameters(parameters, &parameter_types)
        } else {
            self.check_plain_parameters(parameter_types)
        }
    }

    /// Matches labelled parameters to the fields by name.
    pub fn check_labelled_parameters(&self, parameters: &[Parameter], parameter_types: &Vec<Types>) -> (res: Result<(), Error>)
        requires
            forall|i: int| 0 <= i < parameters@.len() ==> #[trigger] parameters@[i] is Labelled,
        ensures
            result_matches(res, labelled_check(self.fields@, self.field_types@, parameters@, parameter_types@)),
    {
        let n = if parameters.len() < parameter_types.len() { parameters.len() } else { parameter_types.len() };
        let mut labels: Table<Ident, Types> = Table::new();
        let mut i: usize = 0;
        while i < n
            invariant
                n <= parameters@.len(),
                n <= parameter_types@.len(),
                i <= n,
                forall|j: int| 0 <= j < parameters@.len() ==> #[trigger] parameters@[j] is Labelled,
                forall|k: Seq<u8>| #[trigger] labels.get_spec(k) == label_type(parameters@, parameter_types@, i as int, k),
            decreases n - i,
        {
            match &parameters[i] {
                Parameter::Labelled { label, .. } => {
                    labels.insert(copy_bytes(label.as_slice()), parameter_types[i]);
                },
                Parameter::Plain(_) => {},
            }
            i = i + 1;
        }
        let ghost ps = parameters@;
        let ghost ts = parameter_types@;
        let mut j: usize = 0;
        let len = if self.fields.len() < self.field_types.len() { self.fields.len() } else { self.field_types.len() };
        assert(self.fields@.skip(0) =~= self.fields@);
        assert(self.field_types@.skip(0) =~= self.field_types@);
        while j < len
            invariant
                len <= self.fields@.len(),
                len <= self.field_types@.len(),
                len == self.fields@.len() || len == self.field_types@.len(),
                j <= len,
                forall|k: Seq<u8>| #[trigger] labels.get_spec(k) == label_type(ps, ts, n as int, k),
                ps == parameters@,
                ts == parameter_types@,
                n == if ps.len() < ts.len() { ps.len() as int } else { ts.len() as int },
                labelled_check(self.fields@, self.field_types@, ps, ts) == labelled_check(
                    self.fields@.skip(j as int),
                    self.field_types@.skip(j as int),
                    ps,
                    ts,
                ),
            decreases len - j,
        {
            let field = &self.fields[j];
            let field_type = self.field_types[j];
            proof {
                assert(self.fields@.skip(j as int).drop_first() =~= self.fields@.skip(j + 1));
                assert(self.field_types@.skip(j as int).drop_first() =~= self.field_types@.skip(j + 1));
                assert(self.fields@.skip(j as int)[0] == self.fields@[j as int]);
                assert(self.field_types@.skip(j as int)[0] == self.field_types@[j as int]);
            }
            let ghost fs = self.fields@.skip(j as int);
            let ghost fts = self.field_types@.skip(j as int);
            match labels.get(&field.name) {
                Some(parameter_type) => {
                    assert(label_type(ps, ts, n as int, fs[0].name@) == Some(*parameter_type));
                    if *parameter_type != field_type {
                        assert(fs.len() > 0 && fts.len() > 0);
                        assert(fs[0] == self.fields@[j as int] && fts[0] == field_type);
                        assert(labelled_check(fs, fts, ps, ts) == SpecOutcome::Mismatch(field.name@, field_type, *parameter_type));
                        return Err(Error::TypeMismatch {
                            field: copy_bytes(field.name.as_slice()),
                            expected: type_label(field_type),
                            found: type_label(*parameter_type),
                        });
                    }
                },
                None => {
                    assert(label_type(ps, ts, n as int, fs[0].name@) is None);
                    if field.default_value.is_none() {
                        assert(fs.len() > 0 && fts.len() > 0);
                        assert(fs[0] == self.fields@[j as int] && fts[0] == field_type);
                        assert(labelled_check(fs, fts, ps, ts) == SpecOutcome::NotSupplied(field.name@));
                        return Err(Error::FieldNotSupplied(copy_bytes(field.name.as_slice())));
                    }
                },
            }
            j = j + 1;
        }
        proof {
            assert(self.fields@.skip(j as int).len() == 0 || self.field_types@.skip(j as int).len() == 0);
        }
        Ok(())
    }

    /// Matches plain parameters to the fields in order.
    pub fn check_plain_parameters(&self, parameter_types: Vec<Types>) -> (res: Result<(), Error>)
        requires
            plain_check(self.fields@, self.field_types@, parameter_types@) is Some,
        ensures
            result_matches(res, plain_check(self.fields@, self.field_types@, parameter_types@)->0),
    {
        let len = if self.fields.len() < self.field_types.len() { self.fields.len() } else { self.field_types.len() };
        let mut next: usize = 0;
        let mut j: usize = 0;
        assert(self.fields@.skip(0) =~= self.fields@);
        assert(self.field_types@.skip(0) =~= self.field_types@);
        assert(parameter_types@.skip(0) =~= parameter_types@);
        while j < len
            invariant
                len <= self.fields@.len(),
                len <= self.field_types@.len(),
                len == self.fields@.len() || len == self.field_types@.len(),
                j <= len,
                next <= parameter_types@.len(),
                plain_check(self.fields@, self.field_types@, parameter_types@) == plain_check(
                    self.fields@.skip(j as int),
                    self.field_types@.skip(j as int),
                    parameter_types@.skip(next as int),
                ),
            decreases len - j,
        {
            let field = &self.fields[j];
            let expected_type = self.field_types[j];
            proof {
                assert(self.fields@.skip(j as int).drop_first() =~= self.fields@.skip(j + 1));
                assert(self.field_types@.skip(j as int).drop_first() =~= self.field_types@.skip(j + 1));
                assert(self.fields@.skip(j as int)[0] == self.fields@[j as int]);
                assert(self.field_types@.skip(j as int)[0] == self.field_types@[j as int]);
            }
            if next == parameter_types.len() {
                return match field.default_value {
                    Some(_) => Ok(()),
                    None => Err(Error::FieldNotSupplied(copy_bytes(field.name.as_slice()))),
                };
            } else if expected_type == parameter_types[next] {
                proof {
                    assert(parameter_types@.skip(next as int).drop_first() =~= parameter_types@.skip(next + 1));
                    assert(parameter_types@.skip(next as int)[0] == parameter_types@[next as int]);
                }
                next = next + 1;
            } else if field.default_value.is_none() {
                proof {
                    assert(parameter_types@.skip(next as int)[0] == parameter_types@[next as int]);
                }
                return Err(Error::TypeMismatch {
                    field: copy_bytes(field.name.as_slice()),
                    expected: type_label(expected_type),
                    found: type_label(parameter_types[next]),
                });
            } else {
                proof {
                    assert(parameter_types@.skip(next as int).len() > 0);
                }
            }
            j = j + 1;
        }
        Ok(())
    }
}

} // verus!
