use vstd::prelude::*;

verus! {

/// Configuration supplied by the consumer before a scan or pipeline run; the
/// core treats it as read-only for the duration of one operation.
pub struct AppConfig {
    /// Maximum depth, relative to the scan root, that the scanner descends to.
    pub max_depth: u32,
    /// Side of the square box a thumbnail is fit within, in pixels.
    pub thumbnail_size: u32,
    /// Command template for opening an image externally; the placeholder
    /// `<path>` is substituted with the image path by the launcher.
    pub open_command: Vec<String>,
    /// Whether the presentation layer uses a dark theme; `None` when the
    /// stored configuration leaves it to the platform.
    pub dark_mode: Option<bool>,
}

impl AppConfig {
    /// The values the application falls back to when no configuration is stored.
    pub open spec fn is_default(&self) -> bool {
        &&& self.max_depth == 2
        &&& self.thumbnail_size == 200
        &&& self.open_command@.len() == 2
        &&& self.open_command@[0]@ == "xdg-open"@
        &&& self.open_command@[1]@ == "<path>"@
        &&& self.dark_mode == Some(true)
    }
}

impl Default for AppConfig {
    fn default() -> (c: Self)
        ensures
            c.is_default(),
    {
        let mut open_command: Vec<String> = Vec::new();
        open_command.push("xdg-open".to_owned());
        open_command.push("<path>".to_owned());
        AppConfig { max_depth: 2, thumbnail_size: 200, open_command, dark_mode: Some(true) }
    }
}

} // verus!
