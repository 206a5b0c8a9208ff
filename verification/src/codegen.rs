//! From the annotations of a batch to its declarations: as values, and as the
//! source text that builds those values where the batch is defined.

use vstd::prelude::*;
use vstd::string::StringExecFns;
use crate::attributes::PurtelTaskAttributes;
use crate::usage::{ParamUsageView, PurtelParamUsage, PurtelParamUsageKind};

verus! {

/// The declarations of the names in `names`, all of kind `kind`.
pub open spec fn usages_of(names: Seq<Seq<char>>, kind: PurtelParamUsageKind) -> Seq<
    ParamUsageView,
> {
    names.map_values(|name: Seq<char>| ParamUsageView { identifier: name, kind })
}

/// What one annotation declares: first the names it writes, then the names
/// it only reads.
pub open spec fn declared_usages(attributes: PurtelTaskAttributes) -> Seq<ParamUsageView> {
    usages_of(attributes.written_names(), PurtelParamUsageKind::WRITE) + usages_of(
        attributes.read_names(),
        PurtelParamUsageKind::READ,
    )
}

/// What the annotations of a batch declare, task by task.
pub open spec fn declared_list(attributes: Seq<PurtelTaskAttributes>) -> Seq<Seq<ParamUsageView>> {
    attributes.map_values(|task: PurtelTaskAttributes| declared_usages(task))
}

/// The source text of one declaration.
pub open spec fn usage_source(name: Seq<char>, kind: PurtelParamUsageKind) -> Seq<char> {
    "    purtel::PurtelParamUsage::new(\""@ + name + match kind {
        PurtelParamUsageKind::WRITE => "\", purtel::PurtelParamUsageKind::WRITE),"@,
        PurtelParamUsageKind::READ => "\", purtel::PurtelParamUsageKind::READ),"@,
    }
}

/// The source text of the declarations of `names`, one after the other.
pub open spec fn usages_source(names: Seq<Seq<char>>, kind: PurtelParamUsageKind) -> Seq<char>
    decreases names.len(),
{
    if names.len() == 0 {
        Seq::empty()
    } else {
        usages_source(names.drop_last(), kind) + usage_source(names.last(), kind)
    }
}

/// The source text of what one annotation declares.
pub open spec fn task_source(attributes: PurtelTaskAttributes) -> Seq<char> {
    "  vec![\n"@ + usages_source(attributes.written_names(), PurtelParamUsageKind::WRITE)
        + usages_source(attributes.read_names(), PurtelParamUsageKind::READ) + "  ],\n"@
}

/// The source text of what the first annotations of a batch declare.
pub open spec fn tasks_source(attributes: Seq<PurtelTaskAttributes>) -> Seq<char>
    decreases attributes.len(),
{
    if attributes.len() == 0 {
        Seq::empty()
    } else {
        tasks_source(attributes.drop_last()) + task_source(attributes.last())
    }
}

/// The statement that binds `param_usages` to the declarations of the batch.
pub open spec fn declaration_source(attributes: Seq<PurtelTaskAttributes>) -> Seq<char> {
    "let param_usages = vec![\n"@ + tasks_source(attributes) + "];"@
}

/// Appends to `usages` a declaration of kind `kind` for each of `names`.
fn push_usages(usages: &mut Vec<PurtelParamUsage>, names: &Vec<String>, kind: PurtelParamUsageKind)
    ensures
        final(usages).deep_view() == old(usages).deep_view() + usages_of(names.deep_view(), kind),
{
    let ghost start = usages.deep_view();
    let mut k: usize = 0;
    assert(usages.deep_view() =~= start + usages_of(names.deep_view(), kind).take(0));
    while k < names.len()
        invariant
            k <= names.len(),
            usages.deep_view() == start + usages_of(names.deep_view(), kind).take(k as int),
        decreases names.len() - k,
    {
        let ghost before = usages.deep_view();
        usages.push(PurtelParamUsage::new(names[k].as_str(), kind));
        assert(usages.deep_view() =~= before.push(
            ParamUsageView { identifier: names[k as int]@, kind },
        ));
        assert(usages.deep_view() =~= start + usages_of(names.deep_view(), kind).take(k + 1));
        k += 1;
    }
    assert(usages_of(names.deep_view(), kind).take(k as int) =~= usages_of(
        names.deep_view(),
        kind,
    ));
}

/// Appends to `text` the source of a declaration of kind `kind` for each of
/// `names`.
fn push_usages_source(text: &mut String, names: &Vec<String>, kind: PurtelParamUsageKind)
    ensures
        final(text)@ == old(text)@ + usages_source(names.deep_view(), kind),
{
    let ghost start = text@;
    let mut k: usize = 0;
    assert(text@ =~= start + usages_source(names.deep_view().take(0), kind));
    while k < names.len()
        invariant
            k <= names.len(),
            text@ == start + usages_source(names.deep_view().take(k as int), kind),
        decreases names.len() - k,
    {
        let ghost before = text@;
        let ghost seen = names.deep_view().take(k as int);
        let ghost now = names.deep_view().take(k + 1);
        assert(now.drop_last() =~= seen);
        assert(now.last() == names[k as int]@);
        text.append("    purtel::PurtelParamUsage::new(\"");
        text.append(names[k].as_str());
        match kind {
            PurtelParamUsageKind::WRITE => {
                text.append("\", purtel::PurtelParamUsageKind::WRITE),");
            },
            PurtelParamUsageKind::READ => {
                text.append("\", purtel::PurtelParamUsageKind::READ),");
            },
        }
        assert(text@ =~= before + usage_source(names[k as int]@, kind));
        assert(text@ =~= start + usages_source(now, kind));
        k += 1;
    }
    assert(names.deep_view().take(k as int) =~= names.deep_view());
}

impl PurtelTaskAttributes {
    /// What the annotation declares: each name of the `write` list as
    /// written, then each name that only the `read` list holds as read.
    pub fn param_usages(&self) -> (usages: Vec<PurtelParamUsage>)
        ensures
            usages.deep_view() == declared_usages(*self),
    {
        let mut usages: Vec<PurtelParamUsage> = Vec::new();
        assert(usages.deep_view() =~= Seq::<ParamUsageView>::empty());
        let written = self.write_params();
        push_usages(&mut usages, &written, PurtelParamUsageKind::WRITE);
        let read = self.read_params();
        push_usages(&mut usages, &read, PurtelParamUsageKind::READ);
        assert(usages.deep_view() =~= declared_usages(*self));
        usages
    }
}

/// The declarations of a batch, from the annotations of its tasks.
pub fn declaration_list(attributes: &Vec<PurtelTaskAttributes>) -> (declarations: Vec<
    Vec<PurtelParamUsage>,
>)
    ensures
        declarations.deep_view() == declared_list(attributes@),
{
    let mut declarations: Vec<Vec<PurtelParamUsage>> = Vec::new();
    let mut t: usize = 0;
    while t < attributes.len()
        invariant
            t <= attributes.len(),
            declarations.len() == t,
            forall|i: int|
                0 <= i < t ==> (#[trigger] declarations[i]).deep_view() == declared_usages(
                    attributes[i],
                ),
        decreases attributes.len() - t,
    {
        declarations.push(attributes[t].param_usages());
        t += 1;
    }
    assert(declarations.deep_view() =~= declared_list(attributes@));
    declarations
}

/// The source text of a statement that binds the name `param_usages` to the
/// declarations of the batch: a vector with one vector for each task, which
/// holds the task's declarations in the order of [`declared_usages`]. The
/// names are put between quotation marks as they are.
pub fn param_usages_source(attributes: &Vec<PurtelTaskAttributes>) -> (text: String)
    ensures
        text@ == declaration_source(attributes@),
{
    let mut text = String::from_str("let param_usages = vec![\n");
    let ghost head = text@;
    let mut t: usize = 0;
    assert(text@ =~= head + tasks_source(attributes@.take(0)));
    while t < attributes.len()
        invariant
            t <= attributes.len(),
            head == "let param_usages = vec![\n"@,
            text@ == head + tasks_source(attributes@.take(t as int)),
        decreases attributes.len() - t,
    {
        let ghost before = text@;
        let ghost seen = attributes@.take(t as int);
        let ghost now = attributes@.take(t + 1);
        assert(now.drop_last() =~= seen);
        assert(now.last() == attributes[t as int]);
        text.append("  vec![\n");
        let written = attributes[t].write_params();
        push_usages_source(&mut text, &written, PurtelParamUsageKind::WRITE);
        let read = attributes[t].read_params();
        push_usages_source(&mut text, &read, PurtelParamUsageKind::READ);
        text.append("  ],\n");
        assert(text@ =~= before + task_source(attributes[t as int]));
        assert(text@ =~= head + tasks_source(now));
        t += 1;
    }
    assert(attributes@.take(t as int) =~= attributes@);
    text.append("];");
    text
}

} // verus!
