//! The functions that formulas can call by name.

use crate::money::Money;
use vstd::prelude::*;

pub mod tax;

verus! {

/// An argument of a call.
#[derive(Debug)]
pub enum Arg<M> {
    /// A number.
    Number(M),
    /// A word.
    String(String),
}

/// Why a call could not be looked up.
#[derive(Debug)]
pub enum Error {
    /// No function has the name.
    UndefinedVariable(String),
    /// The call lacks the argument of this name.
    ArgumentMissing(&'static str),
    /// The function does not know this value of its argument.
    ArgumentInvalid(String),
    /// The argument of this name is of the wrong kind.
    ArgumentInvalidType(&'static str),
}

/// The names of the parameters of the function called `name`: `None` where
/// no function has that name.
pub open spec fn parameters(name: Seq<char>) -> Option<Seq<Seq<char>>> {
    if name == "tax.ni"@ {
        Some(seq!["class"@])
    } else if name == "tax.inc"@ {
        Some(Seq::empty())
    } else if name == "tax.sfe"@ {
        Some(seq!["plan"@])
    } else {
        None
    }
}

/// The texts of some words.
pub open spec fn texts(words: Seq<&'static str>) -> Seq<Seq<char>> {
    words.map_values(|word: &'static str| word@)
}

/// Whether two texts are the same.
pub(crate) fn same(left: &str, right: &str) -> (equal: bool)
    ensures
        equal == (left@ == right@),
{
    left.to_owned() == right.to_owned()
}

/// The functions there are: the name of each with the names of its
/// parameters.
pub fn functions() -> (catalog: Vec<(&'static str, Vec<&'static str>)>)
    ensures
        catalog@.len() == 3,
        catalog@[0].0@ == "tax.ni"@,
        catalog@[1].0@ == "tax.inc"@,
        catalog@[2].0@ == "tax.sfe"@,
        forall|i: int|
            0 <= i < 3 ==> parameters((#[trigger] catalog@[i]).0@) == Some(texts(catalog@[i].1@)),
{
    let catalog = vec![
        ("tax.ni", arguments("tax.ni")),
        ("tax.inc", arguments("tax.inc")),
        ("tax.sfe", arguments("tax.sfe")),
    ];
    catalog
}

/// The names of the parameters of the function called `name`.
pub fn arguments(name: &str) -> (names: Vec<&'static str>)
    requires
        parameters(name@).is_some(),
    ensures
        Some(texts(names@)) == parameters(name@),
{
    if same(name, "tax.ni") {
        let names = vec!["class"];
        assert(texts(names@) =~= seq!["class"@]);
        names
    } else if same(name, "tax.inc") {
        let names: Vec<&'static str> = Vec::new();
        assert(texts(names@) =~= Seq::<Seq<char>>::empty());
        names
    } else {
        let names = vec!["plan"];
        assert(texts(names@) =~= seq!["plan"@]);
        names
    }
}

/// The function called `name` for the given arguments, with the label it
/// is shown under.
pub fn lookup<M: Money>(name: &str, args: &Vec<Arg<M>>) -> (found: Result<
    (String, tax::Banding<M>),
    Error,
>)
    ensures
        name@ == "tax.ni"@ ==> tax::ni_gives(args@, seq!["class"], found),
        name@ != "tax.ni"@ && name@ == "tax.inc"@ ==> tax::inc_gives(found),
        name@ != "tax.ni"@ && name@ != "tax.inc"@ && name@ == "tax.sfe"@ ==> tax::sfe_gives(
            args@,
            seq!["plan"],
            found,
        ),
        parameters(name@).is_none() ==> (found matches Err(Error::UndefinedVariable(missing))
            && missing@ == name@),
{
    if same(name, "tax.ni") {
        let names = arguments("tax.ni");
        assert(names@.len() == texts(names@).len() == 1);
        assert(texts(names@)[0] == names@[0]@);
        tax::ni(args, &names)
    } else if same(name, "tax.inc") {
        tax::inc(args, &arguments("tax.inc"))
    } else if same(name, "tax.sfe") {
        let names = arguments("tax.sfe");
        assert(names@.len() == texts(names@).len() == 1);
        assert(texts(names@)[0] == names@[0]@);
        tax::sfe(args, &names)
    } else {
        Err(Error::UndefinedVariable(name.to_owned()))
    }
}

} // verus!
