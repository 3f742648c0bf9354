use vstd::prelude::*;

use crate::any::{spec_short_name, TypeInfo};
use crate::scope::ScopeData;

verus! {

#[verifier::external_type_specification]
#[verifier::external_body]
pub struct ExAnyhowError(anyhow::Error);

/// Why a child container with the next non-skipped scope could not be built.
#[derive(Debug)]
pub enum ScopeErrorKind {
    /// The container's scope has no narrower scope.
    NoChildRegistries,
    /// Every narrower scope is skipped by default.
    NoNonSkippedRegistries,
}

/// Why a child container with a given scope could not be built.
#[derive(Debug)]
pub enum ScopeWithErrorKind {
    /// The container's scope has no narrower scope.
    NoChildRegistries,
    /// No narrower scope has the requested priority.
    NoChildRegistriesWithScope { name: &'static str, priority: u8 },
}

/// Why an instantiator failed: resolving its dependencies, or its own factory.
#[derive(Debug)]
pub enum InstantiatorErrorKind<DepsErr, FactoryErr> {
    Deps(DepsErr),
    Factory(FactoryErr),
}

/// An error raised by a factory.
#[derive(Debug)]
pub enum InstantiateErrorKind {
    Custom(anyhow::Error),
}

/// Why a dependency could not be resolved.
#[derive(Debug)]
pub enum ResolveErrorKind {
    /// No instantiator is registered for the type.
    NoInstantiator { type_info: TypeInfo },
    /// The instantiator lives in a narrower scope than the container asked.
    NoAccessible { expected_scope_data: ScopeData, actual_scope_data: ScopeData },
    /// The instantiator provided a value of another type.
    IncorrectType { expected: TypeInfo, actual: TypeInfo },
    /// The instantiator failed.
    Instantiator(InstantiatorErrorKind<Box<ResolveErrorKind>, InstantiateErrorKind>),
}

/// Why a registry is not valid.
#[derive(Debug)]
pub enum ValidationErrorKind {
    /// A chain of dependencies leads back into itself: the first type, then the types it
    /// depends on in turn.
    CyclicDependency { graph: (TypeInfo, Vec<TypeInfo>) },
    /// A type depends on a type of a narrower scope, which it can never reach.
    UnreachableDependency {
        dependent: TypeInfo,
        dependent_scope: ScopeData,
        dependency: TypeInfo,
        dependency_scope: ScopeData,
    },
}

/// The decimal digit `d`.
pub open spec fn digit_char(d: nat) -> char {
    if d == 0 {
        '0'
    } else if d == 1 {
        '1'
    } else if d == 2 {
        '2'
    } else if d == 3 {
        '3'
    } else if d == 4 {
        '4'
    } else if d == 5 {
        '5'
    } else if d == 6 {
        '6'
    } else if d == 7 {
        '7'
    } else if d == 8 {
        '8'
    } else {
        '9'
    }
}

/// The decimal notation of `n`, without leading zeros.
pub open spec fn decimal(n: nat) -> Seq<char>
    decreases n,
{
    if n < 10 {
        seq![digit_char(n)]
    } else {
        decimal(n / 10) + seq![digit_char(n % 10)]
    }
}

/// The line of a cycle report for one type the previous one depends on.
pub open spec fn cycle_line(t: TypeInfo) -> Seq<char> {
    "\n↳ depends on "@ + spec_short_name(t.name@) + " ("@ + t.name@ + ")"@
}

/// The lines of a cycle report for the types in `rest`, in order.
pub open spec fn cycle_lines(rest: Seq<TypeInfo>) -> Seq<char>
    decreases rest.len(),
{
    if rest.len() == 0 {
        Seq::empty()
    } else {
        cycle_lines(rest.drop_last()) + cycle_line(rest.last())
    }
}

/// The report of a validation error.
pub open spec fn validation_message(e: ValidationErrorKind) -> Seq<char> {
    match e {
        ValidationErrorKind::CyclicDependency { graph } => {
            let first = graph.0;
            "Cyclic dependency detected:\n"@ + spec_short_name(first.name@) + " "@ + cycle_lines(graph.1@)
                + "\n ↳ depends on "@ + spec_short_name(first.name@) + " ("@ + first.name@ + ")\n"@
        },
        ValidationErrorKind::UnreachableDependency { dependent, dependent_scope, dependency, dependency_scope } => {
            "Unreachable dependency: `"@ + spec_short_name(dependent.name@) + "` (scope `"@ + dependent_scope.name@
                + "`, priority "@ + decimal(dependent_scope.priority as nat) + ") depends on `"@
                + spec_short_name(dependency.name@) + "` (scope `"@ + dependency_scope.name@ + "`, priority "@
                + decimal(dependency_scope.priority as nat) + UNREACHABLE_TAIL@
        },
    }
}

/// How the report of an unreachable dependency ends.
pub const UNREACHABLE_TAIL: &'static str =
    "), which is a narrower scope and can never be resolved from it. A dependency must live in an equal or wider scope.";

/// The decimal digit `d`, as text.
fn digit_str(d: u8) -> (r: &'static str)
    requires
        d < 10,
    ensures
        r@ == seq![digit_char(d as nat)],
{
    if d == 0 {
        proof { reveal_strlit("0"); }
        "0"
    } else if d == 1 {
        proof { reveal_strlit("1"); }
        "1"
    } else if d == 2 {
        proof { reveal_strlit("2"); }
        "2"
    } else if d == 3 {
        proof { reveal_strlit("3"); }
        "3"
    } else if d == 4 {
        proof { reveal_strlit("4"); }
        "4"
    } else if d == 5 {
        proof { reveal_strlit("5"); }
        "5"
    } else if d == 6 {
        proof { reveal_strlit("6"); }
        "6"
    } else if d == 7 {
        proof { reveal_strlit("7"); }
        "7"
    } else if d == 8 {
        proof { reveal_strlit("8"); }
        "8"
    } else {
        proof { reveal_strlit("9"); }
        "9"
    }
}

/// Appends the decimal notation of `n` to `out`.
fn append_decimal(out: &mut String, n: u8)
    ensures
        final(out)@ == old(out)@ + decimal(n as nat),
{
    let ghost before = out@;
    if n >= 100 {
        out.append(digit_str(n / 100));
        out.append(digit_str(n / 10 % 10));
        out.append(digit_str(n % 10));
        proof {
            let a = digit_char((n / 100) as nat);
            let b = digit_char((n / 10 % 10) as nat);
            let c = digit_char((n % 10) as nat);
            assert(decimal((n / 100) as nat) == seq![a]);
            assert(decimal((n / 10) as nat) == seq![a] + seq![b]);
            assert(decimal(n as nat) == seq![a] + seq![b] + seq![c]);
            assert(out@ =~= before + (seq![a] + seq![b] + seq![c]));
        }
    } else if n >= 10 {
        out.append(digit_str(n / 10));
        out.append(digit_str(n % 10));
        proof {
            let a = digit_char((n / 10) as nat);
            let c = digit_char((n % 10) as nat);
            assert(decimal((n / 10) as nat) == seq![a]);
            assert(decimal(n as nat) == seq![a] + seq![c]);
            assert(out@ =~= before + (seq![a] + seq![c]));
        }
    } else {
        out.append(digit_str(n));
    }
}

impl ValidationErrorKind {
    /// The report of this error: for a cycle, the first type and then each type it depends
    /// on in turn, back to the first; for an unreachable dependency, both types with their
    /// scopes.
    pub fn message(&self) -> (r: String)
        ensures
            r@ == validation_message(*self),
    {
        match self {
            ValidationErrorKind::CyclicDependency { graph } => {
                let first = graph.0;
                let short = first.short_name();
                let mut out = String::from_str("Cyclic dependency detected:\n");
                out.append(short);
                out.append(" ");
                let ghost head = out@;
                let mut i: usize = 0;
                while i < graph.1.len()
                    invariant
                        i <= graph.1@.len(),
                        out@ == head + cycle_lines(graph.1@.subrange(0, i as int)),
                    decreases graph.1@.len() - i,
                {
                    let t = graph.1[i];
                    out.append("\n↳ depends on ");
                    out.append(t.short_name());
                    out.append(" (");
                    out.append(t.name);
                    out.append(")");
                    proof {
                        let s = graph.1@.subrange(0, i + 1);
                        assert(s.drop_last() == graph.1@.subrange(0, i as int));
                        assert(s.last() == t);
                    }
                    i = i + 1;
                }
                proof {
                    assert(graph.1@.subrange(0, graph.1@.len() as int) == graph.1@);
                }
                out.append("\n ↳ depends on ");
                out.append(short);
                out.append(" (");
                out.append(first.name);
                out.append(")\n");
                out
            },
            ValidationErrorKind::UnreachableDependency { dependent, dependent_scope, dependency, dependency_scope } => {
                let mut out = String::from_str("Unreachable dependency: `");
                out.append(dependent.short_name());
                out.append("` (scope `");
                out.append(dependent_scope.name);
                out.append("`, priority ");
                append_decimal(&mut out, dependent_scope.priority);
                out.append(") depends on `");
                out.append(dependency.short_name());
                out.append("` (scope `");
                out.append(dependency_scope.name);
                out.append("`, priority ");
                append_decimal(&mut out, dependency_scope.priority);
                out.append(UNREACHABLE_TAIL);
                out
            },
        }
    }
}

/// The resolution error for an instantiator that failed: its dependencies' error boxed, or
/// its factory's error as it is.
pub open spec fn instantiator_failure(e: InstantiatorErrorKind<ResolveErrorKind, InstantiateErrorKind>) -> ResolveErrorKind {
    match e {
        InstantiatorErrorKind::Deps(d) => ResolveErrorKind::Instantiator(InstantiatorErrorKind::Deps(Box::new(d))),
        InstantiatorErrorKind::Factory(f) => ResolveErrorKind::Instantiator(InstantiatorErrorKind::Factory(f)),
    }
}

impl ResolveErrorKind {
    /// The error of resolving a type whose instantiator failed with `e`.
    pub fn from_instantiator(e: InstantiatorErrorKind<ResolveErrorKind, InstantiateErrorKind>) -> (r: ResolveErrorKind)
        ensures
            r == instantiator_failure(e),
    {
        match e {
            InstantiatorErrorKind::Deps(d) => ResolveErrorKind::Instantiator(InstantiatorErrorKind::Deps(Box::new(d))),
            InstantiatorErrorKind::Factory(f) => ResolveErrorKind::Instantiator(InstantiatorErrorKind::Factory(f)),
        }
    }
}

} // verus!
