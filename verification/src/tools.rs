use vstd::prelude::*;

verus! {

/// A tool of the league.
#[derive(Debug, Clone, Copy, PartialEq, Eq, Structural)]
pub enum ToolItem {
    LineUpper,
    Statter,
}

impl ToolItem {
    /// The name of the tool.
    pub fn label(&self) -> (s: &'static str)
        ensures
            s@ == (match self {
                ToolItem::LineUpper => "LineUpper"@,
                ToolItem::Statter => "Statter"@,
            }),
    {
        match self {
            ToolItem::LineUpper => "LineUpper",
            ToolItem::Statter => "Statter",
        }
    }
}

/// The folders that the tools work on, where they are chosen.
#[derive(Debug)]
pub struct Tools {
    pub lineupper_target_path: Option<std::path::PathBuf>,
    pub statter_target_path: Option<std::path::PathBuf>,
}

impl Default for Tools {
    fn default() -> (t: Tools)
        ensures
            t.lineupper_target_path is None,
            t.statter_target_path is None,
    {
        Tools { lineupper_target_path: None, statter_target_path: None }
    }
}

impl Tools {
    /// The folder chosen for the tool.
    pub open spec fn target_of(self, tool: ToolItem) -> Option<std::path::PathBuf> {
        match tool {
            ToolItem::LineUpper => self.lineupper_target_path,
            ToolItem::Statter => self.statter_target_path,
        }
    }

    /// The folder chosen for the tool.
    pub fn target(&self, tool: &ToolItem) -> (r: &Option<std::path::PathBuf>)
        ensures
            *r == self.target_of(*tool),
    {
        match tool {
            ToolItem::LineUpper => &self.lineupper_target_path,
            ToolItem::Statter => &self.statter_target_path,
        }
    }

    /// Chooses the folder for the tool.
    pub fn set_target(&mut self, tool: &ToolItem, path: std::path::PathBuf)
        ensures
            final(self).target_of(*tool) == Some(path),
            forall|other: ToolItem|
                other != *tool ==> final(self).target_of(other) == old(self).target_of(other),
    {
        match tool {
            ToolItem::LineUpper => {
                self.lineupper_target_path = Some(path);
            },
            ToolItem::Statter => {
                self.statter_target_path = Some(path);
            },
        }
    }
}

} // verus!
