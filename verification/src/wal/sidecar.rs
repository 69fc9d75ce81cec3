//! The rules a run's writer normalized identifiers under, recorded beside its manifest. Segments
//! are joined to streams by normalized names, which is sound only under the writer's own rules.

use crate::text::{dec, push_decimal};
use vstd::prelude::*;
use vstd::string::*;

verus! {

/// The sidecar's file name.
pub fn rules_sidecar() -> (name: &'static str)
    ensures
        name@ == "rules.json"@,
{
    "rules.json"
}

/// The longest sidecar that is read: the writer's own is some hundred bytes.
pub const MAX_RULES_SIDECAR_BYTES: u64 = 8192;

/// How a destination normalizes identifiers.
#[derive(Clone, Copy, Debug, PartialEq, Eq, Structural)]
pub struct IdentRules {
    pub max_len: u64,
}

impl IdentRules {
    /// The rules as `Debug` writes them.
    pub open spec fn text(self) -> Seq<char> {
        "IdentRules { max_len: "@ + dec(self.max_len as nat) + " }"@
    }

    /// Appends the rules, as `Debug` writes them, to `out`.
    fn push_to(&self, out: &mut String)
        ensures
            final(out)@ == old(out)@ + self.text(),
    {
        out.append("IdentRules { max_len: ");
        push_decimal(out, self.max_len as u128);
        out.append(" }");
        proof {
            assert(out@ =~= old(out)@ + self.text());
        }
    }
}

/// What was found at the sidecar's path.
#[derive(Debug)]
pub enum Sidecar {
    /// It is absent or could not be read, for this reason.
    Unreadable { error: String },
    /// It is this many bytes, more than are read.
    OverCap,
    /// Its text does not decode as rules, for this reason.
    Unparsed { error: String },
    /// Rules, and whether a writer's validation would pass them.
    Recorded { rules: IdentRules, valid: bool },
}

/// Why the rules a manifest was written under are not those it is read under.
#[derive(Debug)]
pub enum SidecarFault {
    /// There is no sidecar that can be read.
    Unreadable { error: String },
    /// The sidecar is too long to be a writer's.
    OverCap,
    /// It does not decode as rules.
    Unparsed { error: String },
    /// No validated writer has these rules.
    OutOfRange,
    /// The writer's rules were others.
    Drifted { recorded: IdentRules, rules: IdentRules },
}

impl SidecarFault {
    /// The fault in words.
    pub open spec fn text(self) -> Seq<char> {
        match self {
            SidecarFault::Unreadable { error } =>
                "the manifest has no readable `rules.json` sidecar ("@ + error@
                + ") — a WAL without its recorded identifier-normalization rules is not a recognized workdir state, so segment attribution cannot be proven"@,
            SidecarFault::OverCap =>
                "the manifest has no readable `rules.json` sidecar (exceeds the "@ + dec(
                MAX_RULES_SIDECAR_BYTES as nat,
            )
                + "-byte sidecar cap) — a WAL without its recorded identifier-normalization rules is not a recognized workdir state, so segment attribution cannot be proven"@,
            SidecarFault::Unparsed { error } =>
                "the `rules.json` sidecar does not parse as identifier-normalization rules ("@
                + error@ + ")"@,
            SidecarFault::OutOfRange =>
                "the `rules.json` sidecar carries out-of-range identifier-normalization rules — no validated writer produces them, so segment attribution cannot be proven"@,
            SidecarFault::Drifted { recorded, rules } =>
                "the WAL was written under identifier-normalization rules "@ + recorded.text()
                + " but this run's destination normalizes under "@ + rules.text()
                + " — a rules change between the crash and this resume could drop a checkpointed stream's own covered segments while committing its cursor"@,
        }
    }

    /// The fault in words.
    pub fn message(&self) -> (message: String)
        ensures
            message@ == self.text(),
    {
        let mut message = String::new();
        match self {
            SidecarFault::Unreadable { error } => {
                message.append("the manifest has no readable `rules.json` sidecar (");
                message.append(error.as_str());
                message.append(") — a WAL without its recorded identifier-normalization rules is not a recognized workdir state, so segment attribution cannot be proven");
            },
            SidecarFault::OverCap => {
                message.append("the manifest has no readable `rules.json` sidecar (exceeds the ");
                push_decimal(&mut message, MAX_RULES_SIDECAR_BYTES as u128);
                message.append("-byte sidecar cap) — a WAL without its recorded identifier-normalization rules is not a recognized workdir state, so segment attribution cannot be proven");
            },
            SidecarFault::Unparsed { error } => {
                message.append("the `rules.json` sidecar does not parse as identifier-normalization rules (");
                message.append(error.as_str());
                message.append(")");
            },
            SidecarFault::OutOfRange => {
                message.append("the `rules.json` sidecar carries out-of-range identifier-normalization rules — no validated writer produces them, so segment attribution cannot be proven");
            },
            SidecarFault::Drifted { recorded, rules } => {
                message.append("the WAL was written under identifier-normalization rules ");
                recorded.push_to(&mut message);
                message.append(" but this run's destination normalizes under ");
                rules.push_to(&mut message);
                message.append(" — a rules change between the crash and this resume could drop a checkpointed stream's own covered segments while committing its cursor");
            },
        }
        proof {
            assert(message@ =~= self.text());
        }
        message
    }
}

/// Why the rules in `sidecar` are not `rules`; none when they are.
pub open spec fn drift(sidecar: Sidecar, rules: IdentRules) -> Option<SidecarFault> {
    match sidecar {
        Sidecar::Unreadable { error } => Some(SidecarFault::Unreadable { error }),
        Sidecar::OverCap => Some(SidecarFault::OverCap),
        Sidecar::Unparsed { error } => Some(SidecarFault::Unparsed { error }),
        Sidecar::Recorded { rules: recorded, valid } => if !valid {
            Some(SidecarFault::OutOfRange)
        } else if recorded == rules {
            None
        } else {
            Some(SidecarFault::Drifted { recorded, rules })
        },
    }
}

/// Why the rules in `sidecar` are not `rules`; none when they are. Anything but the same valid
/// rules refuses the whole span, so that no cursor from it is ever committed.
pub fn sidecar_drift(sidecar: Sidecar, rules: IdentRules) -> (fault: Option<SidecarFault>)
    ensures
        fault == drift(sidecar, rules),
{
    match sidecar {
        Sidecar::Unreadable { error } => Some(SidecarFault::Unreadable { error }),
        Sidecar::OverCap => Some(SidecarFault::OverCap),
        Sidecar::Unparsed { error } => Some(SidecarFault::Unparsed { error }),
        Sidecar::Recorded { rules: recorded, valid } => {
            if !valid {
                Some(SidecarFault::OutOfRange)
            } else if recorded == rules {
                None
            } else {
                Some(SidecarFault::Drifted { recorded, rules })
            }
        },
    }
}

} // verus!
