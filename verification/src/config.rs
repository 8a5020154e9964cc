use vstd::prelude::*;

verus! {

/// The plugin's configuration (`plugins.fs-stream` in the application's
/// configuration file).
pub struct Config {
    /// Whether or not paths that contain components that start with a `.`
    /// will require that `.` appears literally in the pattern; `*`, `?`, `**`,
    /// or `[...]` will not match. This is useful because such files are
    /// conventionally considered hidden on Unix systems and it might be
    /// desirable to skip them when listing files.
    ///
    /// Defaults to `true` on Unix systems and `false` on Windows
    pub require_literal_leading_dot: Option<bool>,
}

} // verus!
