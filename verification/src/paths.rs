use vstd::prelude::*;

verus! {

/// Relies on `dirs::config_dir`: the platform configuration directory,
/// when the environment defines one. The result depends on the
/// environment alone, so nothing is promised of its value.
#[verifier::external_body]
fn platform_config_dir() -> (r: Option<String>) {
    dirs::config_dir().map(|p| p.to_string_lossy().to_string())
}

/// The engine's directory under a given configuration directory.
pub fn get_config_dir_under(base: &str) -> (r: String)
    ensures
        r@ == base@ + "/spyglass"@,
{
    String::from_str(base).concat("/spyglass")
}

/// Where the user preferences file lives, under a given configuration
/// directory.
pub fn get_config_path_under(base: &str) -> (r: String)
    ensures
        r@ == base@ + "/spyglass/config.json"@,
{
    String::from_str(base).concat("/spyglass/config.json")
}

/// Where the persisted index snapshot lives, under a given configuration
/// directory.
pub fn get_index_path_under(base: &str) -> (r: String)
    ensures
        r@ == base@ + "/spyglass/index.json"@,
{
    String::from_str(base).concat("/spyglass/index.json")
}

/// The platform configuration directory, or the working directory when
/// the platform names none.
fn config_base() -> (r: String) {
    match platform_config_dir() {
        Some(b) => b,
        None => String::from_str("."),
    }
}

/// The engine's configuration directory for this user.
pub fn get_config_dir() -> (r: String)
    ensures
        exists|base: Seq<char>| r@ == #[trigger] (base + "/spyglass"@),
{
    let base = config_base();
    let r = get_config_dir_under(base.as_str());
    proof {
        assert(r@ == base@ + "/spyglass"@);
    }
    r
}

/// Where the user preferences file lives for this user.
pub fn get_config_path() -> (r: String)
    ensures
        exists|base: Seq<char>| r@ == #[trigger] (base + "/spyglass/config.json"@),
{
    let base = config_base();
    let r = get_config_path_under(base.as_str());
    proof {
        assert(r@ == base@ + "/spyglass/config.json"@);
    }
    r
}

/// Where the persisted index snapshot lives for this user.
pub fn get_index_path() -> (r: String)
    ensures
        exists|base: Seq<char>| r@ == #[trigger] (base + "/spyglass/index.json"@),
{
    let base = config_base();
    let r = get_index_path_under(base.as_str());
    proof {
        assert(r@ == base@ + "/spyglass/index.json"@);
    }
    r
}

} // verus!
