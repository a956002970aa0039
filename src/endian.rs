//! Byte orders, the attribute model and the resolution of a field's order.
use vstd::prelude::*;

verus! {

/// A byte order as it is declared: the machine's own, or a fixed one.
#[derive(Clone, Copy, Debug, PartialEq, Eq, Structural)]
pub enum Endian {
    Native,
    Little,
    Big,
}

/// A concrete byte order, as a machine has it.
#[derive(Clone, Copy, Debug, PartialEq, Eq, Structural)]
pub enum ByteOrder {
    Little,
    Big,
}

impl Endian {
    /// The concrete order that this declared order stands for on a machine
    /// whose own order is `native`.
    pub open spec fn on(self, native: ByteOrder) -> ByteOrder {
        match self {
            Endian::Native => native,
            Endian::Little => ByteOrder::Little,
            Endian::Big => ByteOrder::Big,
        }
    }

    pub fn resolve(self, native: ByteOrder) -> (r: ByteOrder)
        ensures
            r == self.on(native),
    {
        match self {
            Endian::Native => native,
            Endian::Little => ByteOrder::Little,
            Endian::Big => ByteOrder::Big,
        }
    }
}

/// Why a declaration cannot be turned into a layout.
#[derive(Clone, Copy, Debug, PartialEq, Eq, Structural)]
pub enum GenError {
    /// The type carries no usable `endian` attribute.
    MissingDefaultEndian,
    /// A field repeats the type's own order.
    RedundantOverride,
    /// An `endian` attribute names no known order.
    UnknownEndianSpelling,
    /// An attribute does not hold exactly one argument.
    MalformedAttribute,
    /// A tagged union carries no `repr` attribute.
    MissingRepr,
    /// The `repr` of a tagged union is not a fixed-width integer type.
    NonIntegerRepr,
    /// A variant of a tagged union has no explicit discriminant.
    MissingDiscriminant,
    /// A discriminant does not fit the representation type.
    DiscriminantOutOfRange,
    /// Two variants share a discriminant.
    DuplicateDiscriminant,
    /// A field names a type that has not been generated yet.
    UnknownType,
    /// The declaration is neither a record nor a tagged union.
    UnsupportedShape,
}

/// An attribute as written on a type or a field: `#[name(arg, ...)]`.
#[derive(Clone, Debug)]
pub struct Attribute {
    pub name: String,
    pub args: Vec<String>,
}

/// The single element of `items`, if it holds exactly one.
pub fn only_one<T>(items: Vec<T>) -> (r: Option<T>)
    ensures
        items@.len() == 1 ==> r == Some(items@[0]),
        items@.len() != 1 ==> r is None,
{
    let mut items = items;
    if items.len() == 1 {
        items.pop()
    } else {
        None
    }
}

pub open spec fn named(attrs: Seq<Attribute>, name: Seq<char>, i: int) -> bool {
    0 <= i < attrs.len() && attrs[i].name@ == name
}

/// `i` is the one attribute called `name`.
pub open spec fn unique_named(attrs: Seq<Attribute>, name: Seq<char>, i: int) -> bool {
    named(attrs, name, i) && forall|j: int| named(attrs, name, j) ==> j == i
}

pub open spec fn has_unique(attrs: Seq<Attribute>, name: Seq<char>) -> bool {
    exists|i: int| unique_named(attrs, name, i)
}

/// The index of the attribute called `name`, where exactly one has that name.
pub fn find(attrs: &Vec<Attribute>, name: &str) -> (r: Option<usize>)
    ensures
        match r {
            Some(i) => unique_named(attrs@, name@, i as int),
            None => !has_unique(attrs@, name@),
        },
{
    let key: String = name.to_owned();
    let mut hits: Vec<usize> = Vec::new();
    let mut i: usize = 0;
    while i < attrs.len()
        invariant
            i <= attrs@.len(),
            key@ == name@,
            forall|k: int| 0 <= k < hits@.len() ==> hits@[k] < i && named(attrs@, name@, hits@[k] as int),
            forall|a: int, b: int| 0 <= a < b < hits@.len() ==> hits@[a] < hits@[b],
            forall|j: int| 0 <= j < i && named(attrs@, name@, j) ==> hits@.contains(j as usize),
        decreases attrs@.len() - i,
    {
        let ghost prev = hits@;
        if attrs[i].name == key {
            hits.push(i);
            proof {
                assert forall|j: int| 0 <= j < i + 1 && named(attrs@, name@, j) implies hits@.contains(
                    j as usize,
                ) by {
                    if j < i {
                        let k = choose|k: int| 0 <= k < prev.len() && prev[k] == j as usize;
                        assert(hits@[k] == j as usize);
                    } else {
                        assert(hits@[prev.len() as int] == j as usize);
                    }
                }
            }
        }
        i = i + 1;
    }
    let ghost all = hits@;
    let r = only_one(hits);
    proof {
        if all.len() == 0 {
            assert forall|j: int| !unique_named(attrs@, name@, j) by {
                if named(attrs@, name@, j) {
                    assert(all.contains(j as usize));
                }
            }
        } else if all.len() >= 2 {
            assert forall|j: int| !unique_named(attrs@, name@, j) by {
                if unique_named(attrs@, name@, j) {
                    assert(named(attrs@, name@, all[0] as int));
                    assert(named(attrs@, name@, all[1] as int));
                }
            }
        } else {
            assert forall|j: int| named(attrs@, name@, j) implies j == all[0] by {
                assert(all.contains(j as usize));
            }
        }
    }
    r
}

/// The order that a marker spells: `_`, `ne`, `native`; `le`, `little`; `be`, `big`.
pub open spec fn spelled(text: Seq<char>) -> Option<Endian> {
    if text == "_"@ || text == "ne"@ || text == "native"@ {
        Some(Endian::Native)
    } else if text == "le"@ || text == "little"@ {
        Some(Endian::Little)
    } else if text == "be"@ || text == "big"@ {
        Some(Endian::Big)
    } else {
        None
    }
}

pub fn determine_endian(text: &String) -> (r: Result<Endian, GenError>)
    ensures
        match spelled(text@) {
            Some(e) => r == Ok::<Endian, GenError>(e),
            None => r == Err::<Endian, GenError>(GenError::UnknownEndianSpelling),
        },
{
    if *text == "_".to_owned() || *text == "ne".to_owned() || *text == "native".to_owned() {
        Ok(Endian::Native)
    } else if *text == "le".to_owned() || *text == "little".to_owned() {
        Ok(Endian::Little)
    } else if *text == "be".to_owned() || *text == "big".to_owned() {
        Ok(Endian::Big)
    } else {
        Err(GenError::UnknownEndianSpelling)
    }
}

/// What the `endian` attribute among `attrs` declares: nothing where no single
/// attribute has that name, else the order its one argument spells.
pub open spec fn endian_attr(attrs: Seq<Attribute>) -> Result<Option<Endian>, GenError> {
    if has_unique(attrs, "endian"@) {
        let i = choose|i: int| unique_named(attrs, "endian"@, i);
        let args = attrs[i].args@;
        if args.len() != 1 {
            Err(GenError::MalformedAttribute)
        } else {
            match spelled(args[0]@) {
                Some(e) => Ok(Some(e)),
                None => Err(GenError::UnknownEndianSpelling),
            }
        }
    } else {
        Ok(None)
    }
}

pub fn parse(attrs: &Vec<Attribute>) -> (r: Result<Option<Endian>, GenError>)
    ensures
        r == endian_attr(attrs@),
{
    match find(attrs, "endian") {
        None => Ok(None),
        Some(i) => {
            let args = attrs[i].args.clone();
            match only_one(args) {
                None => Err(GenError::MalformedAttribute),
                Some(arg) => match determine_endian(&arg) {
                    Ok(e) => Ok(Some(e)),
                    Err(e) => Err(e),
                },
            }
        },
    }
}

/// A field's order: the type's `default` where the field declares none; an
/// override that repeats the default is refused.
pub open spec fn chosen(attribute: Option<Endian>, default: Endian) -> Result<Endian, GenError> {
    match attribute {
        Some(e) => if e == default {
            Err(GenError::RedundantOverride)
        } else {
            Ok(e)
        },
        None => Ok(default),
    }
}

pub fn choice(attribute: Option<Endian>, default: Endian) -> (r: Result<Endian, GenError>)
    ensures
        r == chosen(attribute, default),
{
    match attribute {
        Some(e) => if e == default {
            Err(GenError::RedundantOverride)
        } else {
            Ok(e)
        },
        None => Ok(default),
    }
}

/// The order of a field with attributes `attrs` in a type whose order is `default`.
pub open spec fn field_endian(attrs: Seq<Attribute>, default: Endian) -> Result<Endian, GenError> {
    match endian_attr(attrs) {
        Ok(a) => chosen(a, default),
        Err(e) => Err(e),
    }
}

pub fn get_endian(attrs: &Vec<Attribute>, default: Endian) -> (r: Result<Endian, GenError>)
    ensures
        r == field_endian(attrs@, default),
{
    match parse(attrs) {
        Ok(a) => choice(a, default),
        Err(e) => Err(e),
    }
}

} // verus!
