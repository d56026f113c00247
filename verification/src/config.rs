//! The declarative configuration of a workspace, as plain values. A name
//! occurs at most once among the keys of `stacks` and among those of
//! `processes`; where one is looked up, the first entry under it counts.

use crate::text::strs;
use vstd::prelude::*;

verus! {

/// The whole configuration file.
#[derive(Clone, Debug, PartialEq, Eq)]
pub struct ConfigFile {
    pub default: Option<ConfigDefault>,
    pub stacks: Vec<(String, ConfigStack)>,
    pub processes: Vec<(String, ConfigProcess)>,
}

/// The section `default`.
#[derive(Clone, Debug, PartialEq, Eq)]
pub struct ConfigDefault {
    pub stack: Option<String>,
    pub process: Option<ConfigProcessDefault>,
}

/// What every process gets in addition to its own settings.
#[derive(Clone, Debug, PartialEq, Eq)]
pub struct ConfigProcessDefault {
    pub cargo_args: Vec<String>,
}

/// One entry of `stacks`: the stacks it inherits from and the processes
/// declared on it.
#[derive(Clone, Debug, PartialEq, Eq)]
pub struct ConfigStack {
    pub inherits: Vec<String>,
    pub processes: Vec<String>,
}

/// One entry of `processes`.
#[derive(Clone, Debug, PartialEq, Eq)]
pub struct ConfigProcess {
    pub binary: Option<String>,
    pub args: Vec<String>,
    pub cargo_args: Vec<String>,
    pub env: Vec<(String, String)>,
}

/// The mathematical value of a [`ConfigStack`].
pub ghost struct ConfigStackView {
    pub inherits: Seq<Seq<char>>,
    pub processes: Seq<Seq<char>>,
}

impl View for ConfigStack {
    type V = ConfigStackView;

    open spec fn view(&self) -> ConfigStackView {
        ConfigStackView { inherits: strs(self.inherits@), processes: strs(self.processes@) }
    }
}

/// The stacks of a configuration as a sequence of names with their
/// definitions.
pub open spec fn stack_table(stacks: Seq<(String, ConfigStack)>) -> Seq<(Seq<char>, ConfigStackView)> {
    stacks.map_values(|e: (String, ConfigStack)| (e.0@, e.1@))
}

} // verus!
