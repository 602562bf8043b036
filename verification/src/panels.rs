use vstd::prelude::*;

verus! {

/// Window-menu panel visibility. The canvas itself is always shown.
#[derive(Clone, Copy)]
pub struct PanelVis {
    pub tool_options: bool,
    pub tools: bool,
    pub properties: bool,
}

impl Default for PanelVis {
    fn default() -> (r: Self)
        ensures
            r.tool_options && r.tools && r.properties,
    {
        PanelVis { tool_options: true, tools: true, properties: true }
    }
}

impl PanelVis {
    /// Whether no panel is hidden.
    pub fn all_shown(&self) -> (r: bool)
        ensures
            r == (self.tool_options && self.tools && self.properties),
    {
        self.tool_options && self.tools && self.properties
    }

    /// Bring every panel back.
    pub fn show_all(&mut self)
        ensures
            final(self).tool_options && final(self).tools && final(self).properties,
    {
        *self = PanelVis::default();
    }
}

} // verus!
