use vstd::prelude::*;
use crate::chars::{push_str, string_from_chars};
use crate::compiler::graph::{var_key, views, VarId};
use crate::compiler::topo::VarKey;
use crate::span::Span;

verus! {

/// Errors produced while compiling a document into its layout graph.
#[derive(Debug, Clone, PartialEq)]
pub enum CompileError {
    UndefinedComponent { name: String, span: Span },
    ReservedPort { node: String, port: String, span: Span },
    MissingPort { node: String, port: String, span: Span },
    DuplicatePort { node: String, port: String, span: Span },
    CyclicDependency { cycle: Vec<VarId>, span: Span },
    UninitializedVariableUse { name: String, span: Span },
    UndefinedEnvVariable { name: String, span: Span },
    BlockedEnvVariable { name: String, span: Span },
    BareEnvUse { span: Span },
    Custom { message: String, span: Span },
}

/// The variables of a cycle joined by ` -> `.
pub open spec fn cycle_text(c: Seq<VarKey>) -> Seq<char>
    decreases c.len(),
{
    if c.len() == 0 {
        Seq::empty()
    } else if c.len() == 1 {
        var_key(c[0])
    } else {
        cycle_text(c.drop_last()) + " -> "@ + var_key(c.last())
    }
}

impl CompileError {
    pub open spec fn spec_span(&self) -> Span {
        match self {
            CompileError::UndefinedComponent { span, .. } => *span,
            CompileError::ReservedPort { span, .. } => *span,
            CompileError::MissingPort { span, .. } => *span,
            CompileError::DuplicatePort { span, .. } => *span,
            CompileError::CyclicDependency { span, .. } => *span,
            CompileError::UninitializedVariableUse { span, .. } => *span,
            CompileError::UndefinedEnvVariable { span, .. } => *span,
            CompileError::BlockedEnvVariable { span, .. } => *span,
            CompileError::BareEnvUse { span } => *span,
            CompileError::Custom { span, .. } => *span,
        }
    }

    /// The source range the error points at.
    pub fn span(&self) -> (s: Span)
        ensures
            s == self.spec_span(),
    {
        match self {
            CompileError::UndefinedComponent { span, .. } => *span,
            CompileError::ReservedPort { span, .. } => *span,
            CompileError::MissingPort { span, .. } => *span,
            CompileError::DuplicatePort { span, .. } => *span,
            CompileError::CyclicDependency { span, .. } => *span,
            CompileError::UninitializedVariableUse { span, .. } => *span,
            CompileError::UndefinedEnvVariable { span, .. } => *span,
            CompileError::BlockedEnvVariable { span, .. } => *span,
            CompileError::BareEnvUse { span } => *span,
            CompileError::Custom { span, .. } => *span,
        }
    }

    /// The human-readable message of the error.
    pub open spec fn spec_message(&self) -> Seq<char> {
        match self {
            CompileError::UndefinedComponent { name, .. } => "Undefined component '"@ + name@
                + "'"@,
            CompileError::ReservedPort { node, port, .. } => "Port '"@ + port@
                + "' is reserved on node '"@ + node@ + "'"@,
            CompileError::MissingPort { node, port, .. } => "Node '"@ + node@
                + "' is missing required port '"@ + port@ + "'"@,
            CompileError::DuplicatePort { node, port, .. } => "Port '"@ + port@
                + "' defined multiple times on node '"@ + node@ + "'"@,
            CompileError::CyclicDependency { cycle, .. } =>
                "Cyclic dependency detected in layout graph: "@ + cycle_text(views(cycle@)),
            CompileError::UninitializedVariableUse { name, .. } =>
                "Attempted to use explicitly uninitialized variable '"@ + name@ + "'"@,
            CompileError::UndefinedEnvVariable { name, .. } => "Undefined environmental variable '"@
                + name@ + "'"@,
            CompileError::BlockedEnvVariable { name, .. } => "Environmental variable '"@ + name@
                + "' is firewalled/swallowed and cannot be accessed"@,
            CompileError::BareEnvUse { .. } =>
                "Cannot use bare 'env' as an expression; access an environmental variable via 'env.<name>'"@,
            CompileError::Custom { message, .. } => message@,
        }
    }

    /// The message of the error, as `Display` would print it.
    pub fn message(&self) -> (s: String)
        ensures
            s@ == self.spec_message(),
    {
        let mut out: Vec<char> = Vec::new();
        match self {
            CompileError::UndefinedComponent { name, .. } => {
                push_str(&mut out, "Undefined component '");
                push_str(&mut out, name.as_str());
                push_str(&mut out, "'");
            },
            CompileError::ReservedPort { node, port, .. } => {
                push_str(&mut out, "Port '");
                push_str(&mut out, port.as_str());
                push_str(&mut out, "' is reserved on node '");
                push_str(&mut out, node.as_str());
                push_str(&mut out, "'");
            },
            CompileError::MissingPort { node, port, .. } => {
                push_str(&mut out, "Node '");
                push_str(&mut out, node.as_str());
                push_str(&mut out, "' is missing required port '");
                push_str(&mut out, port.as_str());
                push_str(&mut out, "'");
            },
            CompileError::DuplicatePort { node, port, .. } => {
                push_str(&mut out, "Port '");
                push_str(&mut out, port.as_str());
                push_str(&mut out, "' defined multiple times on node '");
                push_str(&mut out, node.as_str());
                push_str(&mut out, "'");
            },
            CompileError::CyclicDependency { cycle, .. } => {
                push_str(&mut out, "Cyclic dependency detected in layout graph: ");
                push_cycle_text(&mut out, cycle);
            },
            CompileError::UninitializedVariableUse { name, .. } => {
                push_str(&mut out, "Attempted to use explicitly uninitialized variable '");
                push_str(&mut out, name.as_str());
                push_str(&mut out, "'");
            },
            CompileError::UndefinedEnvVariable { name, .. } => {
                push_str(&mut out, "Undefined environmental variable '");
                push_str(&mut out, name.as_str());
                push_str(&mut out, "'");
            },
            CompileError::BlockedEnvVariable { name, .. } => {
                push_str(&mut out, "Environmental variable '");
                push_str(&mut out, name.as_str());
                push_str(&mut out, "' is firewalled/swallowed and cannot be accessed");
            },
            CompileError::BareEnvUse { .. } => {
                push_str(
                    &mut out,
                    "Cannot use bare 'env' as an expression; access an environmental variable via 'env.<name>'",
                );
            },
            CompileError::Custom { message, .. } => {
                push_str(&mut out, message.as_str());
            },
        }
        assert(out@ =~= self.spec_message());
        string_from_chars(out.as_slice())
    }
}

/// Appends the variables of `cycle` joined by ` -> `.
fn push_cycle_text(out: &mut Vec<char>, cycle: &Vec<VarId>)
    ensures
        final(out)@ == old(out)@ + cycle_text(views(cycle@)),
{
    let mut t: usize = 0;
    while t < cycle.len()
        invariant
            t <= cycle@.len(),
            out@ == old(out)@ + cycle_text(views(cycle@).take(t as int)),
        decreases cycle@.len() - t,
    {
        let ghost before = out@;
        if t > 0 {
            push_str(out, " -> ");
        }
        let key = cycle[t].key_chars();
        let mut c: usize = 0;
        while c < key.len()
            invariant
                c <= key@.len(),
                out@ == before + (if t > 0 {
                    " -> "@
                } else {
                    Seq::empty()
                }) + key@.take(c as int),
            decreases key@.len() - c,
        {
            out.push(key[c]);
            c = c + 1;
            assert(key@.take(c as int) =~= key@.take(c - 1).push(key@[c - 1]));
        }
        proof {
            let s = views(cycle@);
            assert(s.take(t + 1).drop_last() =~= s.take(t as int));
            assert(key@.take(c as int) =~= key@);
            if t == 0 {
                assert(cycle_text(s.take(0)) =~= Seq::empty());
            }
            assert(out@ =~= old(out)@ + cycle_text(s.take(t + 1)));
        }
        t = t + 1;
    }
    assert(views(cycle@).take(t as int) =~= views(cycle@));
}

} // verus!
