//! The generation engine: what becomes of one file of the tree.
//!
//! The engine itself touches no file. For a full template it says what to
//! write and where. For a fragment it first says which file is wanted, and,
//! given that file's text, what to write back. Reading and writing are the
//! caller's, in the order in which the tree is walked.

use crate::config::{rule_texts, Config, Context};
use crate::error::Error;
use crate::inject::{inject_chunk, injected};
use crate::lines::{joined, lines_of};
use crate::marker::marker_of;
use crate::paths::{
    chunk_name_of, relocated, resolve_chunk_target, resolve_output_path, rewritten,
    template_suffix,
};
use crate::render::{
    is_plain, lemma_plain_template_unchanged, render, render_of, RenderData,
};
use crate::text::is_suffix;
use vstd::prelude::*;

verus! {

/// A file to write: all of `content`, at `path`, in place of what is there.
#[derive(Clone, Debug, PartialEq, Eq)]
pub struct FileOutput {
    pub path: String,
    pub content: String,
}

/// A fragment that is rendered and resolved, and waits for its target.
#[derive(Clone, Debug, PartialEq, Eq)]
pub struct ChunkPlan {
    /// The file that the fragment goes into.
    pub target_path: String,
    /// The chunk whose marker is looked for.
    pub chunk_id: String,
    /// The rendered fragment.
    pub fragment: String,
}

/// Renders the full template at `path`, whose text is `template`, over
/// `args`, and resolves where the result goes. A template without
/// expressions comes out as it went in, whatever the variables are: the file
/// to write holds the template's own text.
pub fn process_file(
    path: &str,
    template: &str,
    args: &Context,
    config: &Config,
    root_path: &str,
    output_path: &str,
) -> (r: Result<FileOutput, Error>)
    requires
        is_suffix(template_suffix(), path@),
    ensures
        match (
            render_of(template@, args@),
            rewritten(
                path@.take(path@.len() - template_suffix().len()),
                rule_texts(config.path_rewrites@),
                args@,
            ),
        ) {
            (Some(content), Some(target)) => r matches Ok(out) && out.content@ == content
                && out.path@ == relocated(target, root_path@, output_path@),
            _ => r matches Err(Error::Render(_)),
        },
        is_plain(template@) ==> match rewritten(
            path@.take(path@.len() - template_suffix().len()),
            rule_texts(config.path_rewrites@),
            args@,
        ) {
            Some(target) => r matches Ok(out) && out.content@ == template@ && out.path@
                == relocated(target, root_path@, output_path@),
            None => r matches Err(Error::Render(_)),
        },
{
    proof {
        if is_plain(template@) {
            lemma_plain_template_unchanged(template@, args@);
        }
    }
    let data = RenderData::new(args);
    let content = match render(template, &data) {
        Ok(content) => content,
        Err(e) => {
            return Err(e);
        },
    };
    match resolve_output_path(path, root_path, output_path, &config.path_rewrites, &data) {
        Ok(target) => Ok(FileOutput { path: target, content }),
        Err(e) => Err(e),
    }
}

/// Renders the fragment at `path`, whose text is `template`, over `args`,
/// and resolves its chunk and its target. The renderer is asked first: where
/// it refuses the fragment, the name is not looked at.
pub fn prepare_chunk(
    path: &str,
    template: &str,
    args: &Context,
    config: &Config,
    root_path: &str,
    output_path: &str,
) -> (r: Result<ChunkPlan, Error>)
    ensures
        match render_of(template@, args@) {
            Some(fragment) => match chunk_name_of(path@) {
                Some(name) => match rewritten(
                    name.base,
                    rule_texts(config.path_rewrites@),
                    args@,
                ) {
                    Some(target) => r matches Ok(plan) && plan.fragment@ == fragment
                        && plan.chunk_id@ == name.chunk_id && plan.target_path@ == relocated(
                        target,
                        root_path@,
                        output_path@,
                    ),
                    None => r matches Err(Error::Render(_)),
                },
                None => r matches Err(e) && e == Error::InvalidChunkName,
            },
            None => r matches Err(Error::Render(_)),
        },
{
    let data = RenderData::new(args);
    let fragment = match render(template, &data) {
        Ok(fragment) => fragment,
        Err(e) => {
            return Err(e);
        },
    };
    match resolve_chunk_target(path, root_path, output_path, &config.path_rewrites, &data) {
        Ok(target) => Ok(
            ChunkPlan { target_path: target.path, chunk_id: target.chunk_id, fragment },
        ),
        Err(e) => Err(e),
    }
}

/// Merges the fragment of `plan` into its target, whose text is `target`;
/// `None` says that the target could not be read. The engine creates no
/// target: without one the run fails.
pub fn process_chunk(plan: &ChunkPlan, target: Option<&str>) -> (r: Result<FileOutput, Error>)
    ensures
        match target {
            Some(content) => match injected(
                plan.fragment@,
                marker_of(plan.chunk_id@),
                lines_of(content@),
            ) {
                Some(lines) => r matches Ok(out) && out.path@ == plan.target_path@
                    && out.content@ == joined(lines),
                None => r matches Err(e) && e == Error::UnsupportedInsertionMode,
            },
            None => r matches Err(e) && e == Error::TargetNotFound,
        },
{
    match target {
        Some(content) => match inject_chunk(
            plan.fragment.as_str(),
            plan.chunk_id.as_str(),
            content,
        ) {
            Ok(merged) => Ok(FileOutput { path: plan.target_path.clone(), content: merged }),
            Err(e) => Err(e),
        },
        None => Err(Error::TargetNotFound),
    }
}

} // verus!
