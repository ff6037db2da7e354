//! What to tell the user about a circuit that cannot be built.
use crate::number::Real;
use crate::place::BuildError;
use crate::text::{decimal, decimal_text, join, join_texts, texts};
use vstd::prelude::*;

verus! {

/// The text about a multiplicity that is not a positive, finite number.
pub open spec fn bad_multiplicity_text(name: Seq<char>, value: Seq<char>) -> Seq<char> {
    "instance multiplicity must be a positive, finite number, got `"@ + name + "="@ + value + "`                      (it is a count of identical devices in parallel; LRM 6.3.6)"@
}

/// What a list of names reads like: the names, or `none`.
pub open spec fn listed(names: Seq<Seq<char>>) -> Seq<char> {
    if names.len() == 0 {
        "none"@
    } else {
        join(names, ", "@)
    }
}

/// The names with commas between them, or `none`.
pub fn list_texts(names: &Vec<String>) -> (r: String)
    ensures
        r@ == listed(texts(names@)),
{
    if names.len() == 0 {
        "none".to_owned()
    } else {
        join_texts(names, ", ")
    }
}

impl BuildError {
    /// The text of every error but that about a multiplicity, which spells a number.
    pub open spec fn text(self) -> Seq<char> {
        match self {
            BuildError::BadMultiplicity { .. } => Seq::empty(),
            BuildError::UnknownParameter { model, name, known } => "model `"@ + model@
                + "` has no parameter `"@ + name@ + "` (it declares: "@ + listed(texts(known@))
                + ")"@,
            BuildError::AmbiguousMultiplicity { model } => "model `"@ + model@ + "` declares its own parameter `mult`, so `mult=` on a device                          line is ambiguous: it could set that parameter or the instance                          multiplicity. Rename the model's parameter, or set the multiplicity                          with `m=` if the model declares no `m` either."@,
            BuildError::LocalParameter { model, name } => "model `"@ + model@ + "` declares `"@ + name@ + "` as a `localparam`, which a deck cannot                          set — a localparam is a module-internal constant (LRM 3.4.2)"@,
            BuildError::TooManyTerminals { model, declared, connected } => "model `"@ + model@ + "` declares "@ + decimal(declared as nat) + " port node(s), device connects "@ + decimal(connected as nat),
            BuildError::PartialPort { model, connected, width, port } => "model `"@ + model@ + "`: device connects "@ + decimal(connected as nat) + " terminal(s), which ends part-way through                  "@ + decimal(width as nat) + "-wide port #"@ + decimal(port as nat) + " — a port is connected as a whole or not at all"@,
            BuildError::RequiredPort { model, declared, connected, port, node } => "model `"@ + model@ + "` declares "@ + decimal(declared as nat) + " port node(s), device connects "@ + decimal(connected as nat) + " — and port #"@ + decimal(port as nat) + "                  (`"@ + node@ + "`) is not optional: the model never asks `$port_connected` about it"@,
            BuildError::TooFewTerminals { device, terminals, model } => "`"@ + device@ + "` is a "@ + decimal(terminals as nat) + "-terminal device line, but `"@ + model@ + "` needs at least two nodes"@,
            BuildError::NeedsValue { device } => "device `"@ + device@ + "` needs a value"@,
            BuildError::TransistorTerminals { device, terminals } => "device `"@ + device@ + "` (model `bjt`) needs exactly 3 terminals (c, b, e), found "@ + decimal(terminals as nat),
            BuildError::UnknownModel { device, model } => "device `"@ + device@ + "` references unknown model `"@ + model@ + "` (no compiled `--model` matched, and it is not a built-in primitive)"@,
            BuildError::CouplingArity { device } => "`"@ + device@ + "` must name exactly two inductors"@,
            BuildError::NotAnInductor { device, element } => "`"@ + device@ + "` couples `"@ + element@ + "`, which is not an inductor"@,
            BuildError::NoBranchRow { element } => "`"@ + element@ + "` has no branch row"@,
            BuildError::SelfCoupling { device, element } => "`"@ + device@ + "` couples `"@ + element@ + "` to itself"@,
            BuildError::NoControl { device } => "`"@ + device@ + "` names no controlling element"@,
            BuildError::ControlWithoutCurrent { device, element } => "`"@ + device@ + "` is controlled by `"@ + element@ + "`, which has no branch current to sense                      (only a voltage source, an inductor, or an `E`/`H` carries one)"@,
        }
    }

    /// What to tell the user. `spell` spells a number.
    pub fn message<F: Fn(Real) -> String>(&self, spell: F) -> (r: String)
        requires
            forall|x: Real| #[trigger] call_requires(spell, (x,)),
        ensures
            match *self {
                BuildError::BadMultiplicity { name, value } => exists|t: String|
                    #[trigger] call_ensures(spell, (value,), t) && r@ == bad_multiplicity_text(
                        name@,
                        t@,
                    ),
                _ => r@ == self.text(),
            },
    {
        match self {
            BuildError::BadMultiplicity { name, value } => {
                let number = spell(*value);
                let mut r = "instance multiplicity must be a positive, finite number, got `".to_owned();
                r.append(name.as_str());
                r.append("=");
                r.append(number.as_str());
                r.append("`                      (it is a count of identical devices in parallel; LRM 6.3.6)");
                r
            },
            BuildError::UnknownParameter { model, name, known } => {
                let mut r = "model `".to_owned();
                r.append(model.as_str());
                r.append("` has no parameter `");
                r.append(name.as_str());
                r.append("` (it declares: ");
                r.append(list_texts(known).as_str());
                r.append(")");
                r
            },
            BuildError::AmbiguousMultiplicity { model } => {
                let mut r = "model `".to_owned();
                r.append(model.as_str());
                r.append("` declares its own parameter `mult`, so `mult=` on a device                          line is ambiguous: it could set that parameter or the instance                          multiplicity. Rename the model's parameter, or set the multiplicity                          with `m=` if the model declares no `m` either.");
                r
            },
            BuildError::LocalParameter { model, name } => {
                let mut r = "model `".to_owned();
                r.append(model.as_str());
                r.append("` declares `");
                r.append(name.as_str());
                r.append("` as a `localparam`, which a deck cannot                          set — a localparam is a module-internal constant (LRM 3.4.2)");
                r
            },
            BuildError::TooManyTerminals { model, declared, connected } => {
                let mut r = "model `".to_owned();
                r.append(model.as_str());
                r.append("` declares ");
                r.append(decimal_text(*declared as u64).as_str());
                r.append(" port node(s), device connects ");
                r.append(decimal_text(*connected as u64).as_str());
                r
            },
            BuildError::PartialPort { model, connected, width, port } => {
                let mut r = "model `".to_owned();
                r.append(model.as_str());
                r.append("`: device connects ");
                r.append(decimal_text(*connected as u64).as_str());
                r.append(" terminal(s), which ends part-way through                  ");
                r.append(decimal_text(*width as u64).as_str());
                r.append("-wide port #");
                r.append(decimal_text(*port as u64).as_str());
                r.append(" — a port is connected as a whole or not at all");
                r
            },
            BuildError::RequiredPort { model, declared, connected, port, node } => {
                let mut r = "model `".to_owned();
                r.append(model.as_str());
                r.append("` declares ");
                r.append(decimal_text(*declared as u64).as_str());
                r.append(" port node(s), device connects ");
                r.append(decimal_text(*connected as u64).as_str());
                r.append(" — and port #");
                r.append(decimal_text(*port as u64).as_str());
                r.append("                  (`");
                r.append(node.as_str());
                r.append("`) is not optional: the model never asks `$port_connected` about it");
                r
            },
            BuildError::TooFewTerminals { device, terminals, model } => {
                let mut r = "`".to_owned();
                r.append(device.as_str());
                r.append("` is a ");
                r.append(decimal_text(*terminals as u64).as_str());
                r.append("-terminal device line, but `");
                r.append(model.as_str());
                r.append("` needs at least two nodes");
                r
            },
            BuildError::NeedsValue { device } => {
                let mut r = "device `".to_owned();
                r.append(device.as_str());
                r.append("` needs a value");
                r
            },
            BuildError::TransistorTerminals { device, terminals } => {
                let mut r = "device `".to_owned();
                r.append(device.as_str());
                r.append("` (model `bjt`) needs exactly 3 terminals (c, b, e), found ");
                r.append(decimal_text(*terminals as u64).as_str());
                r
            },
            BuildError::UnknownModel { device, model } => {
                let mut r = "device `".to_owned();
                r.append(device.as_str());
                r.append("` references unknown model `");
                r.append(model.as_str());
                r.append("` (no compiled `--model` matched, and it is not a built-in primitive)");
                r
            },
            BuildError::CouplingArity { device } => {
                let mut r = "`".to_owned();
                r.append(device.as_str());
                r.append("` must name exactly two inductors");
                r
            },
            BuildError::NotAnInductor { device, element } => {
                let mut r = "`".to_owned();
                r.append(device.as_str());
                r.append("` couples `");
                r.append(element.as_str());
                r.append("`, which is not an inductor");
                r
            },
            BuildError::NoBranchRow { element } => {
                let mut r = "`".to_owned();
                r.append(element.as_str());
                r.append("` has no branch row");
                r
            },
            BuildError::SelfCoupling { device, element } => {
                let mut r = "`".to_owned();
                r.append(device.as_str());
                r.append("` couples `");
                r.append(element.as_str());
                r.append("` to itself");
                r
            },
            BuildError::NoControl { device } => {
                let mut r = "`".to_owned();
                r.append(device.as_str());
                r.append("` names no controlling element");
                r
            },
            BuildError::ControlWithoutCurrent { device, element } => {
                let mut r = "`".to_owned();
                r.append(device.as_str());
                r.append("` is controlled by `");
                r.append(element.as_str());
                r.append("`, which has no branch current to sense                      (only a voltage source, an inductor, or an `E`/`H` carries one)");
                r
            },
        }
    }
}

} // verus!
