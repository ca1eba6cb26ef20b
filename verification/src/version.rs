use vstd::prelude::*;

verus! {

/// The version banner: name and dotted version when all three components
/// are known, a fixed fallback otherwise.
pub open spec fn version_model(maj: Option<&str>, min: Option<&str>, pat: Option<&str>) -> Seq<
    char,
> {
    match (maj, min, pat) {
        (Some(a), Some(b), Some(c)) => "rusty_tree v"@ + a@ + "."@ + b@ + "."@ + c@,
        _ => "rusty_tree vUnknown"@,
    }
}

/// Builds the version banner from the package version components, which the
/// surrounding program reads from its build environment.
pub fn version(maj: Option<&str>, min: Option<&str>, pat: Option<&str>) -> (r: String)
    ensures
        r@ == version_model(maj, min, pat),
{
    match (maj, min, pat) {
        (Some(a), Some(b), Some(c)) => {
            let mut r = "rusty_tree v".to_owned();
            r.append(a);
            r.append(".");
            r.append(b);
            r.append(".");
            r.append(c);
            r
        },
        _ => "rusty_tree vUnknown".to_owned(),
    }
}

} // verus!
