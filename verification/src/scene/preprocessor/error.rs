use vstd::prelude::*;
use vstd::string::*;

verus! {

/// Why a scene description could not be preprocessed.
pub enum Error {
    /// The text is not valid RON: the parser's message.
    Ron(String),
    /// The expanded scene could not be written back as RON: the writer's message.
    Ser(String),
    /// An imported file could not be read: the system's message.
    Io(String),
    /// A component uses itself, directly or through others: the chain of components.
    CyclicDependency(Vec<String>),
    /// A `@name` reference that no prop and no definition provides.
    UndefinedRef(String),
    /// A component instance lacks a prop that the component declares: (component, prop).
    MissingProp(String, String),
    /// The description does not have the expected shape.
    InvalidStructure(&'static str),
}

/// The mathematical content of an [`Error`].
pub enum Fail {
    Parse(Seq<char>),
    Serialize(Seq<char>),
    Io(Seq<char>),
    CyclicDependency(Seq<Seq<char>>),
    UndefinedRef(Seq<char>),
    MissingProp(Seq<char>, Seq<char>),
    InvalidStructure(Seq<char>),
}

impl View for Error {
    type V = Fail;

    open spec fn view(&self) -> Fail {
        match self {
            Error::Ron(m) => Fail::Parse(m@),
            Error::Ser(m) => Fail::Serialize(m@),
            Error::Io(m) => Fail::Io(m@),
            Error::CyclicDependency(c) => Fail::CyclicDependency(c@.map_values(|s: String| s@)),
            Error::UndefinedRef(n) => Fail::UndefinedRef(n@),
            Error::MissingProp(c, p) => Fail::MissingProp(c@, p@),
            Error::InvalidStructure(m) => Fail::InvalidStructure(m@),
        }
    }
}


/// The strings of `s` with `sep` between each two.
pub open spec fn join(s: Seq<Seq<char>>, sep: Seq<char>) -> Seq<char>
    decreases s.len(),
{
    if s.len() == 0 {
        Seq::empty()
    } else if s.len() == 1 {
        s[0]
    } else {
        join(s.drop_last(), sep) + sep + s.last()
    }
}

/// The text shown to the user for an error.
pub open spec fn message_of(f: Fail) -> Seq<char> {
    match f {
        Fail::Parse(m) => "RON parse error: "@ + m,
        Fail::Serialize(m) => "RON serialize error: "@ + m,
        Fail::Io(m) => "IO error: "@ + m,
        Fail::CyclicDependency(c) => "Cyclic dependency: "@ + join(c, " \u{2192} "@),
        Fail::UndefinedRef(n) => "Undefined reference: @"@ + n,
        Fail::MissingProp(c, p) => "Missing prop '"@ + p + "' for '"@ + c + "'"@,
        Fail::InvalidStructure(m) => "Invalid structure: "@ + m,
    }
}

impl Error {
    /// The text shown to the user for this error.
    pub fn message(&self) -> (s: String)
        ensures
            s@ == message_of(self@),
    {
        match self {
            Error::Ron(m) => {
                let mut s = "RON parse error: ".to_owned();
                s.append(m.as_str());
                s
            },
            Error::Ser(m) => {
                let mut s = "RON serialize error: ".to_owned();
                s.append(m.as_str());
                s
            },
            Error::Io(m) => {
                let mut s = "IO error: ".to_owned();
                s.append(m.as_str());
                s
            },
            Error::CyclicDependency(c) => {
                let mut s = "Cyclic dependency: ".to_owned();
                let ghost head = s@;
                let ghost all = c@.map_values(|x: String| x@);
                let mut i: usize = 0;
                while i < c.len()
                    invariant
                        i <= c@.len(),
                        all == c@.map_values(|x: String| x@),
                        s@ == head + join(all.take(i as int), " \u{2192} "@),
                    decreases c.len() - i,
                {
                    proof {
                        assert(all.take(i + 1).drop_last() =~= all.take(i as int));
                        assert(all.take(i + 1).last() == c@[i as int]@);
                    }
                    if i > 0 {
                        s.append(" \u{2192} ");
                    } else {
                        assert(all.take(0) =~= Seq::<Seq<char>>::empty());
                    }
                    s.append(c[i].as_str());
                    proof {
                        if i > 0 {
                            assert(s@ =~= head + (join(all.take(i as int), " \u{2192} "@) + " \u{2192} "@ + c@[i as int]@));
                        } else {
                            assert(s@ =~= head + c@[i as int]@);
                        }
                    }
                    i = i + 1;
                }
                proof {
                    assert(all.take(c@.len() as int) =~= all);
                }
                s
            },
            Error::UndefinedRef(n) => {
                let mut s = "Undefined reference: @".to_owned();
                s.append(n.as_str());
                s
            },
            Error::MissingProp(c, p) => {
                let mut s = "Missing prop '".to_owned();
                s.append(p.as_str());
                s.append("' for '");
                s.append(c.as_str());
                s.append("'");
                s
            },
            Error::InvalidStructure(m) => {
                let mut s = "Invalid structure: ".to_owned();
                s.append(m);
                s
            },
        }
    }
}

} // verus!
