//! The rules of the `archive` attribute: which arguments it knows, that each
//! may be given once, and which of them exclude each other.
//!
//! The rules are stated over whatever a front end parses the arguments
//! into. The types of the parsed pieces are parameters: a string literal
//! `L`, an identifier `I`, a nested attribute `M`, a list of paths `P`, a
//! list of bounds `B` and a path `C`.

use vstd::prelude::*;

verus! {

/// The outer attributes that are read.
#[derive(Clone, Copy, Debug, PartialEq, Eq, Structural)]
pub enum AttributeKind {
    /// `archive` or `rkyv`: a list of arguments.
    Arguments,
    /// `archive_attr` or `rkyv_attr`: attributes for the archived type.
    Passed,
    /// `rkyv_derive`: derives for the archived type.
    Derives,
}

/// The arguments that `archive` knows.
#[derive(Clone, Copy, Debug, PartialEq, Eq, Structural)]
pub enum Argument {
    /// `check_bytes`
    CheckBytes,
    /// `compare(..)`
    Compare,
    /// `archive_bounds(..)`
    ArchiveBounds,
    /// `serialize_bounds(..)`
    SerializeBounds,
    /// `deserialize_bounds(..)`
    DeserializeBounds,
    /// `archived = ..`
    Archived,
    /// `resolver = ..`
    Resolver,
    /// `as = ".."`
    As,
    /// `crate` or `crate = ..`
    Crate,
    /// `derive(..)`
    Derive,
    /// `attr(..)`
    Attr,
}

/// The kind of the outer attribute with the name `name`, if it is read.
pub open spec fn attribute_named(name: Seq<char>) -> Option<AttributeKind> {
    if name == "archive"@ || name == "rkyv"@ {
        Some(AttributeKind::Arguments)
    } else if name == "archive_attr"@ || name == "rkyv_attr"@ {
        Some(AttributeKind::Passed)
    } else if name == "rkyv_derive"@ {
        Some(AttributeKind::Derives)
    } else {
        None
    }
}

/// The argument with the name `name`, if `archive` knows it.
pub open spec fn argument_named(name: Seq<char>) -> Option<Argument> {
    if name == "check_bytes"@ {
        Some(Argument::CheckBytes)
    } else if name == "compare"@ {
        Some(Argument::Compare)
    } else if name == "archive_bounds"@ {
        Some(Argument::ArchiveBounds)
    } else if name == "serialize_bounds"@ {
        Some(Argument::SerializeBounds)
    } else if name == "deserialize_bounds"@ {
        Some(Argument::DeserializeBounds)
    } else if name == "archived"@ {
        Some(Argument::Archived)
    } else if name == "resolver"@ {
        Some(Argument::Resolver)
    } else if name == "as"@ {
        Some(Argument::As)
    } else if name == "crate"@ {
        Some(Argument::Crate)
    } else if name == "derive"@ {
        Some(Argument::Derive)
    } else if name == "attr"@ {
        Some(Argument::Attr)
    } else {
        None
    }
}

/// The name under which an argument is written.
pub open spec fn name_of(argument: Argument) -> Seq<char> {
    match argument {
        Argument::CheckBytes => "check_bytes"@,
        Argument::Compare => "compare"@,
        Argument::ArchiveBounds => "archive_bounds"@,
        Argument::SerializeBounds => "serialize_bounds"@,
        Argument::DeserializeBounds => "deserialize_bounds"@,
        Argument::Archived => "archived"@,
        Argument::Resolver => "resolver"@,
        Argument::As => "as"@,
        Argument::Crate => "crate"@,
        Argument::Derive => "derive"@,
        Argument::Attr => "attr"@,
    }
}

/// Whether `name` is the word `literal`.
fn is_named(name: &String, literal: &str) -> (same: bool)
    ensures
        same == (name@ == literal@),
{
    *name == String::from_str(literal)
}

/// Decides whether an outer attribute is read, and as what.
pub fn attribute_kind(name: &str) -> (kind: Option<AttributeKind>)
    ensures
        kind == attribute_named(name@),
{
    let name = String::from_str(name);
    if is_named(&name, "archive") || is_named(&name, "rkyv") {
        Some(AttributeKind::Arguments)
    } else if is_named(&name, "archive_attr") || is_named(&name, "rkyv_attr") {
        Some(AttributeKind::Passed)
    } else if is_named(&name, "rkyv_derive") {
        Some(AttributeKind::Derives)
    } else {
        None
    }
}

/// Decides which argument a name stands for.
pub fn argument_from_name(name: &str) -> (argument: Option<Argument>)
    ensures
        argument == argument_named(name@),
{
    let name = String::from_str(name);
    if is_named(&name, "check_bytes") {
        Some(Argument::CheckBytes)
    } else if is_named(&name, "compare") {
        Some(Argument::Compare)
    } else if is_named(&name, "archive_bounds") {
        Some(Argument::ArchiveBounds)
    } else if is_named(&name, "serialize_bounds") {
        Some(Argument::SerializeBounds)
    } else if is_named(&name, "deserialize_bounds") {
        Some(Argument::DeserializeBounds)
    } else if is_named(&name, "archived") {
        Some(Argument::Archived)
    } else if is_named(&name, "resolver") {
        Some(Argument::Resolver)
    } else if is_named(&name, "as") {
        Some(Argument::As)
    } else if is_named(&name, "crate") {
        Some(Argument::Crate)
    } else if is_named(&name, "derive") {
        Some(Argument::Derive)
    } else if is_named(&name, "attr") {
        Some(Argument::Attr)
    } else {
        None
    }
}

/// The name under which an argument is written.
pub fn argument_name(argument: Argument) -> (name: &'static str)
    ensures
        name@ == name_of(argument),
{
    match argument {
        Argument::CheckBytes => "check_bytes",
        Argument::Compare => "compare",
        Argument::ArchiveBounds => "archive_bounds",
        Argument::SerializeBounds => "serialize_bounds",
        Argument::DeserializeBounds => "deserialize_bounds",
        Argument::Archived => "archived",
        Argument::Resolver => "resolver",
        Argument::As => "as",
        Argument::Crate => "crate",
        Argument::Derive => "derive",
        Argument::Attr => "attr",
    }
}

/// Why a value was not taken: its argument was given before. The value
/// comes back, so that a front end can point at it.
pub struct AlreadySpecified<T> {
    /// The value that was not taken.
    pub value: T,
    /// What to say about it.
    pub message: String,
}

/// What is said of an argument that is given a second time.
pub open spec fn already_specified(name: Seq<char>) -> Seq<char> {
    name + " already specified"@
}

/// Sets `attribute` to `value` if it is not set yet. An attribute that is
/// set stays as it is, and the value comes back with the reason.
pub fn try_set_attribute<T>(attribute: &mut Option<T>, value: T, name: &str) -> (done: Result<
    (),
    AlreadySpecified<T>,
>)
    ensures
        match done {
            Ok(()) => *old(attribute) is None && *final(attribute) == Some(value),
            Err(error) => {
                &&& *old(attribute) is Some
                &&& *final(attribute) == *old(attribute)
                &&& error.value == value
                &&& error.message@ == already_specified(name@)
            },
        },
{
    if attribute.is_none() {
        *attribute = Some(value);
        Ok(())
    } else {
        Err(AlreadySpecified { value, message: String::from_str(name).concat(" already specified") })
    }
}

/// One argument of `archive` with what was parsed for it.
pub enum Parsed<L, I, M, P, B, C> {
    /// `check_bytes`, as the nested attribute that it is.
    CheckBytes(M),
    /// `compare(..)` with its paths.
    Compare(P),
    /// `archive_bounds(..)` with its bounds.
    ArchiveBounds(B),
    /// `serialize_bounds(..)` with its bounds.
    SerializeBounds(B),
    /// `deserialize_bounds(..)` with its bounds.
    DeserializeBounds(B),
    /// `archived = ..` with the name.
    Archived(I),
    /// `resolver = ..` with the name.
    Resolver(I),
    /// `as = ".."` with the literal.
    As(L),
    /// `crate`, or `crate = ..`, with the path.
    Crate(C),
    /// `derive(..)` or `attr(..)` with the attributes that it adds.
    Attrs(Vec<M>),
}

/// The value of an argument that was refused, whatever its type.
pub enum Refused<L, I, M, P, B, C> {
    /// A string literal.
    Literal(L),
    /// An identifier.
    Ident(I),
    /// A nested attribute.
    Meta(M),
    /// A list of paths.
    Paths(P),
    /// A list of bounds.
    Bounds(B),
    /// A path.
    Path(C),
}

/// What the `archive` attributes of one type say.
pub struct Attributes<L, I, M, P, B, C> {
    /// The type to archive as, from `as = ".."`.
    pub archive_as: Option<L>,
    /// The name of the archived type.
    pub archived: Option<I>,
    /// The name of the resolver.
    pub resolver: Option<I>,
    /// The attributes for the archived type, in the order given.
    pub attrs: Vec<M>,
    /// The traits to compare by.
    pub compares: Option<P>,
    /// The bounds for archiving.
    pub archive_bounds: Option<B>,
    /// The bounds for serializing.
    pub serialize_bounds: Option<B>,
    /// The bounds for deserializing.
    pub deserialize_bounds: Option<B>,
    /// The request to check bytes.
    pub check_bytes: Option<M>,
    /// The path of the crate.
    pub crate_path: Option<C>,
}

/// What is said where bytes are to be checked of a type that is archived as
/// another.
pub open spec fn conflict_message() -> Seq<char> {
    "cannot generate a `CheckBytes` impl because `as = \"..\"` does not generate an archived type"@
}

/// What is said of an argument that `archive` does not know.
pub open spec fn unrecognized_message() -> Seq<char> {
    "unrecognized archive argument"@
}

/// What is said where `crate` is followed by something other than a path
/// that is assigned to it.
pub open spec fn crate_message() -> Seq<char> {
    "expected `crate` or `crate = ...`"@
}

/// What is said where `check_bytes` is followed by something other than a
/// group in parentheses.
pub open spec fn delimiter_message() -> Seq<char> {
    "expected delimiter"@
}

/// What to say of a `check_bytes` whose arguments are no group in
/// parentheses.
pub fn expected_delimiter() -> (message: &'static str)
    ensures
        message@ == delimiter_message(),
{
    "expected delimiter"
}

/// Decides which argument a name stands for. A name that stands for none
/// is refused with what to say of it.
pub fn recognize(name: &str) -> (argument: Result<Argument, &'static str>)
    ensures
        match argument {
            Ok(argument) => argument_named(name@) == Some(argument),
            Err(message) => argument_named(name@) is None && message@ == unrecognized_message(),
        },
{
    match argument_from_name(name) {
        Some(argument) => Ok(argument),
        None => Err("unrecognized archive argument"),
    }
}

/// The two forms of the argument `crate`.
#[derive(Clone, Copy, Debug, PartialEq, Eq, Structural)]
pub enum CrateForm {
    /// `crate = ..`: the path that is assigned.
    Given,
    /// `crate` alone: the crate that holds the type.
    Own,
}

/// Decides the form of the argument `crate` from what follows the word:
/// whether a path is assigned to it, and whether the argument ends there.
/// Anything else is refused with what to say of it.
pub fn crate_form(assigned: bool, ended: bool) -> (form: Result<CrateForm, &'static str>)
    ensures
        match form {
            Ok(CrateForm::Given) => assigned,
            Ok(CrateForm::Own) => !assigned && ended,
            Err(message) => !assigned && !ended && message@ == crate_message(),
        },
{
    if assigned {
        Ok(CrateForm::Given)
    } else if ended {
        Ok(CrateForm::Own)
    } else {
        Err("expected `crate` or `crate = ...`")
    }
}

/// The path under which the crate is found where none is given.
pub const DEFAULT_CRATE_PATH: &'static str = "::rkyv";

impl<L, I, M, P, B, C> Attributes<L, I, M, P, B, C> {
    /// No argument was given yet.
    pub fn new() -> (attributes: Self)
        ensures
            attributes.archive_as is None,
            attributes.archived is None,
            attributes.resolver is None,
            attributes.attrs@.len() == 0,
            attributes.compares is None,
            attributes.archive_bounds is None,
            attributes.serialize_bounds is None,
            attributes.deserialize_bounds is None,
            attributes.check_bytes is None,
            attributes.crate_path is None,
    {
        Attributes {
            archive_as: None,
            archived: None,
            resolver: None,
            attrs: Vec::new(),
            compares: None,
            archive_bounds: None,
            serialize_bounds: None,
            deserialize_bounds: None,
            check_bytes: None,
            crate_path: None,
        }
    }

    /// What the attributes say once `argument` is taken in, where it can be.
    pub open spec fn with(self, argument: Parsed<L, I, M, P, B, C>) -> Self {
        match argument {
            Parsed::CheckBytes(meta) => Attributes { check_bytes: Some(meta), ..self },
            Parsed::Compare(paths) => Attributes { compares: Some(paths), ..self },
            Parsed::ArchiveBounds(bounds) => Attributes { archive_bounds: Some(bounds), ..self },
            Parsed::SerializeBounds(bounds) => Attributes { serialize_bounds: Some(bounds), ..self },
            Parsed::DeserializeBounds(bounds) => Attributes {
                deserialize_bounds: Some(bounds),
                ..self
            },
            Parsed::Archived(name) => Attributes { archived: Some(name), ..self },
            Parsed::Resolver(name) => Attributes { resolver: Some(name), ..self },
            Parsed::As(literal) => Attributes { archive_as: Some(literal), ..self },
            Parsed::Crate(path) => Attributes { crate_path: Some(path), ..self },
            Parsed::Attrs(metas) => self,
        }
    }

    /// Whether the argument of `argument` was given before. Attributes for
    /// the archived type may be given any number of times.
    pub open spec fn given(self, argument: Parsed<L, I, M, P, B, C>) -> bool {
        match argument {
            Parsed::CheckBytes(_) => self.check_bytes is Some,
            Parsed::Compare(_) => self.compares is Some,
            Parsed::ArchiveBounds(_) => self.archive_bounds is Some,
            Parsed::SerializeBounds(_) => self.serialize_bounds is Some,
            Parsed::DeserializeBounds(_) => self.deserialize_bounds is Some,
            Parsed::Archived(_) => self.archived is Some,
            Parsed::Resolver(_) => self.resolver is Some,
            Parsed::As(_) => self.archive_as is Some,
            Parsed::Crate(_) => self.crate_path is Some,
            Parsed::Attrs(_) => false,
        }
    }

    /// The name under which `argument` is refused.
    pub open spec fn written_as(argument: Parsed<L, I, M, P, B, C>) -> Seq<char> {
        match argument {
            Parsed::CheckBytes(_) => "check_bytes"@,
            Parsed::Compare(_) => "compare"@,
            Parsed::ArchiveBounds(_) => "archive_bounds"@,
            Parsed::SerializeBounds(_) => "serialize_bounds"@,
            Parsed::DeserializeBounds(_) => "deserialize_bounds"@,
            Parsed::Archived(_) => "archived"@,
            Parsed::Resolver(_) => "resolver"@,
            Parsed::As(_) => "as"@,
            Parsed::Crate(_) => "crate"@,
            Parsed::Attrs(_) => "attr"@,
        }
    }

    /// The value of `argument` as it comes back when it is refused.
    pub open spec fn value_of(argument: Parsed<L, I, M, P, B, C>) -> Option<
        Refused<L, I, M, P, B, C>,
    > {
        match argument {
            Parsed::CheckBytes(meta) => Some(Refused::Meta(meta)),
            Parsed::Compare(paths) => Some(Refused::Paths(paths)),
            Parsed::ArchiveBounds(bounds) => Some(Refused::Bounds(bounds)),
            Parsed::SerializeBounds(bounds) => Some(Refused::Bounds(bounds)),
            Parsed::DeserializeBounds(bounds) => Some(Refused::Bounds(bounds)),
            Parsed::Archived(name) => Some(Refused::Ident(name)),
            Parsed::Resolver(name) => Some(Refused::Ident(name)),
            Parsed::As(literal) => Some(Refused::Literal(literal)),
            Parsed::Crate(path) => Some(Refused::Path(path)),
            Parsed::Attrs(_) => None,
        }
    }

    /// Takes one argument in. An argument that was given before is refused
    /// and changes nothing. Attributes for the archived type are added
    /// behind those that are there.
    pub fn parse_meta(&mut self, argument: Parsed<L, I, M, P, B, C>) -> (done: Result<
        (),
        AlreadySpecified<Refused<L, I, M, P, B, C>>,
    >)
        ensures
            match done {
                Ok(()) => {
                    &&& !old(self).given(argument)
                    &&& match argument {
                        Parsed::Attrs(metas) => *final(self) == (Attributes {
                            attrs: final(self).attrs,
                            ..*old(self)
                        }) && final(self).attrs@ == old(self).attrs@ + metas@,
                        _ => *final(self) == old(self).with(argument),
                    }
                },
                Err(error) => {
                    &&& old(self).given(argument)
                    &&& *final(self) == *old(self)
                    &&& Some(error.value) == Self::value_of(argument)
                    &&& error.message@ == already_specified(Self::written_as(argument))
                },
            },
    {
        match argument {
            Parsed::CheckBytes(meta) => {
                match try_set_attribute(&mut self.check_bytes, meta, "check_bytes") {
                    Ok(()) => Ok(()),
                    Err(error) => Err(
                        AlreadySpecified {
                            value: Refused::Meta(error.value),
                            message: error.message,
                        },
                    ),
                }
            },
            Parsed::Compare(paths) => {
                match try_set_attribute(&mut self.compares, paths, "compare") {
                    Ok(()) => Ok(()),
                    Err(error) => Err(
                        AlreadySpecified {
                            value: Refused::Paths(error.value),
                            message: error.message,
                        },
                    ),
                }
            },
            Parsed::ArchiveBounds(bounds) => {
                match try_set_attribute(&mut self.archive_bounds, bounds, "archive_bounds") {
                    Ok(()) => Ok(()),
                    Err(error) => Err(
                        AlreadySpecified {
                            value: Refused::Bounds(error.value),
                            message: error.message,
                        },
                    ),
                }
            },
            Parsed::SerializeBounds(bounds) => {
                match try_set_attribute(&mut self.serialize_bounds, bounds, "serialize_bounds") {
                    Ok(()) => Ok(()),
                    Err(error) => Err(
                        AlreadySpecified {
                            value: Refused::Bounds(error.value),
                            message: error.message,
                        },
                    ),
                }
            },
            Parsed::DeserializeBounds(bounds) => {
                match try_set_attribute(&mut self.deserialize_bounds, bounds, "deserialize_bounds") {
                    Ok(()) => Ok(()),
                    Err(error) => Err(
                        AlreadySpecified {
                            value: Refused::Bounds(error.value),
                            message: error.message,
                        },
                    ),
                }
            },
            Parsed::Archived(name) => {
                match try_set_attribute(&mut self.archived, name, "archived") {
                    Ok(()) => Ok(()),
                    Err(error) => Err(
                        AlreadySpecified {
                            value: Refused::Ident(error.value),
                            message: error.message,
                        },
                    ),
                }
            },
            Parsed::Resolver(name) => {
                match try_set_attribute(&mut self.resolver, name, "resolver") {
                    Ok(()) => Ok(()),
                    Err(error) => Err(
                        AlreadySpecified {
                            value: Refused::Ident(error.value),
                            message: error.message,
                        },
                    ),
                }
            },
            Parsed::As(literal) => {
                match try_set_attribute(&mut self.archive_as, literal, "as") {
                    Ok(()) => Ok(()),
                    Err(error) => Err(
                        AlreadySpecified {
                            value: Refused::Literal(error.value),
                            message: error.message,
                        },
                    ),
                }
            },
            Parsed::Crate(path) => {
                match try_set_attribute(&mut self.crate_path, path, "crate") {
                    Ok(()) => Ok(()),
                    Err(error) => Err(
                        AlreadySpecified {
                            value: Refused::Path(error.value),
                            message: error.message,
                        },
                    ),
                }
            },
            Parsed::Attrs(metas) => {
                let mut metas = metas;
                self.attrs.append(&mut metas);
                Ok(())
            },
        }
    }

    /// Judges the arguments together, once all are taken in: a type that is
    /// archived as another has no archived type of its own whose bytes
    /// could be checked. The request to check bytes comes back with the
    /// reason.
    pub fn finish(self) -> (done: Result<Self, AlreadySpecified<M>>)
        ensures
            match done {
                Ok(attributes) => attributes == self && !(self.archive_as is Some
                    && self.check_bytes is Some),
                Err(error) => {
                    &&& self.archive_as is Some
                    &&& self.check_bytes == Some(error.value)
                    &&& error.message@ == conflict_message()
                },
            },
    {
        if self.archive_as.is_none() {
            return Ok(self);
        }
        let mut attributes = self;
        match attributes.check_bytes.take() {
            Some(value) => Err(
                AlreadySpecified {
                    value,
                    message: String::from_str(
                        "cannot generate a `CheckBytes` impl because `as = \"..\"` does not generate an archived type",
                    ),
                },
            ),
            None => Ok(attributes),
        }
    }

    /// The path of the crate, where one was given. Where none was, the crate
    /// is found under `DEFAULT_CRATE_PATH`.
    pub fn crate_path(&self) -> (path: Option<&C>)
        ensures
            match path {
                Some(path) => self.crate_path == Some(*path),
                None => self.crate_path is None,
            },
    {
        self.crate_path.as_ref()
    }
}

} // verus!
