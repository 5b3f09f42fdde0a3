use vstd::prelude::*;
use vstd::string::*;

verus! {

/// Errors of the command line program.
pub enum RaytracerError {
    /// The program was not given a scene file.
    IncorrectArguments,
    /// A file could not be read or written: the system's message.
    IoError(String),
}

impl RaytracerError {
    /// The text shown to the user for this error.
    pub fn message(&self) -> (s: String)
        ensures
            s@ == match self {
                RaytracerError::IncorrectArguments => "Incorrect arguments!"@,
                RaytracerError::IoError(e) => "IO error: "@ + e@,
            },
    {
        match self {
            RaytracerError::IncorrectArguments => "Incorrect arguments!".to_owned(),
            RaytracerError::IoError(e) => {
                let mut s = "IO error: ".to_owned();
                s.append(e.as_str());
                s
            },
        }
    }

    /// The underlying system error's message, if this error has one.
    pub fn source(&self) -> (r: Option<&String>)
        ensures
            match self {
                RaytracerError::IoError(e) => r == Some(e),
                RaytracerError::IncorrectArguments => r is None,
            },
    {
        match self {
            RaytracerError::IoError(e) => Some(e),
            RaytracerError::IncorrectArguments => None,
        }
    }

    /// Wraps a system error's message.
    pub fn from(e: String) -> (r: RaytracerError)
        ensures
            r == RaytracerError::IoError(e),
    {
        RaytracerError::IoError(e)
    }
}

/// The scene file named on the command line, and whether `--sfml` is among the other
/// arguments. `args` holds the program name first.
pub fn get_config_file(args: &Vec<String>) -> (r: Result<(String, bool), RaytracerError>)
    ensures
        args@.len() < 2 ==> r matches Err(RaytracerError::IncorrectArguments),
        args@.len() >= 2 ==> (r matches Ok((path, sfml)) && path@ == args@[1]@
            && sfml == args@.remove(1).map_values(|a: String| a@).contains("--sfml"@)),
{
    if args.len() < 2 {
        return Err(RaytracerError::IncorrectArguments);
    }
    let flag: String = "--sfml".to_owned();
    let mut sfml = false;
    let mut i: usize = 0;
    let ghost rest = args@.remove(1).map_values(|a: String| a@);
    while i < args.len()
        invariant
            2 <= args@.len(),
            i <= args@.len(),
            flag@ == "--sfml"@,
            rest == args@.remove(1).map_values(|a: String| a@),
            sfml == exists|j: int| 0 <= j < i && j != 1 && #[trigger] args@[j]@ == "--sfml"@,
        decreases args.len() - i,
    {
        if i != 1 && args[i] == flag {
            sfml = true;
        }
        i = i + 1;
    }
    proof {
        if sfml {
            let j = choose|j: int| 0 <= j < args@.len() && j != 1 && #[trigger] args@[j]@ == "--sfml"@;
            let k = if j < 1 { j } else { j - 1 };
            assert(rest[k] == "--sfml"@);
        }
        if rest.contains("--sfml"@) {
            let k = choose|k: int| 0 <= k < rest.len() && rest[k] == "--sfml"@;
            let j = if k < 1 { k } else { k + 1 };
            assert(args@[j]@ == "--sfml"@);
        }
    }
    Ok((args[1].clone(), sfml))
}

} // verus!
