//! The pure steps of playlist generation.
//!
//! Generation runs outside this crate (the generator itself and the lock
//! around the shared channel configuration are collaborators); what is
//! decided here is verified: sanitising every source path of a pending
//! template against the storage root before the generator may see it, the
//! take/restore steps on the configuration, and the interpretation of the
//! generator's output.

use vstd::prelude::*;
use vstd::string::*;
use crate::document::PlaylistDocument;
use crate::outcome::{PathError, StoreError};
use crate::path::{is_descendant_of, is_storage_root, resolve, spec_resolve};

verus! {

/// One content source of a template: a list of candidate media paths.
pub struct Source {
    pub paths: Vec<String>,
}

/// A pre-generation descriptor of content sources.
pub struct Template {
    pub sources: Vec<Source>,
}

impl View for Source {
    type V = Seq<Seq<char>>;

    open spec fn view(&self) -> Seq<Seq<char>> {
        self.paths.deep_view()
    }
}

impl View for Template {
    type V = Seq<Seq<Seq<char>>>;

    open spec fn view(&self) -> Seq<Seq<Seq<char>>> {
        Seq::new(self.sources@.len(), |i: int| self.sources@[i]@)
    }
}

/// The two fields of the shared channel configuration this crate touches:
/// the storage root and an optional pending template.
pub struct ChannelConfig {
    pub storage: String,
    pub template: Option<Template>,
}

impl ChannelConfig {
    pub fn new(storage: String) -> (r: ChannelConfig)
        ensures
            r.storage@ == storage@,
            r.template is None,
    {
        ChannelConfig { storage, template: None }
    }

    /// The extract step of generation: take ownership of any pending
    /// template, leaving none behind, without touching the storage root.
    pub fn take_template(&mut self) -> (t: Option<Template>)
        ensures
            t == old(self).template,
            final(self).template is None,
            final(self).storage == old(self).storage,
    {
        self.template.take()
    }

    /// The restore step of generation: put a (sanitised) template back,
    /// without touching the storage root.
    pub fn restore_template(&mut self, t: Template)
        ensures
            final(self).template == Some(t),
            final(self).storage == old(self).storage,
    {
        self.template = Some(t);
    }
}

/// Resolve every candidate path of every source against the storage
/// root.
///
/// All paths resolve, each exactly as the lexical model prescribes and
/// each confined to the root — or the whole template is rejected on the
/// first path that cannot be confined, so no template with a mix of
/// resolved and unresolved paths ever reaches the generator.
pub fn resolve_template(storage_root: &str, template: &Template) -> (r: Result<
    Template,
    PathError,
>)
    requires
        is_storage_root(storage_root@),
    ensures
        match r {
            Ok(t) => {
                &&& t@.len() == template@.len()
                &&& forall|i: int| 0 <= i < t@.len() ==> (#[trigger] t@[i]).len()
                    == template@[i].len()
                &&& forall|i: int, j: int|
                    0 <= i < t@.len() && 0 <= j < t@[i].len() ==> spec_resolve(
                        storage_root@,
                        template@[i][j],
                    ) == Some(#[trigger] t@[i][j])
                &&& forall|i: int, j: int|
                    0 <= i < t@.len() && 0 <= j < t@[i].len() ==> is_descendant_of(
                        #[trigger] t@[i][j],
                        storage_root@,
                    )
            },
            Err(e) => e == PathError::OutsideRoot && exists|i: int, j: int|
                0 <= i < template@.len() && 0 <= j < template@[i].len() && spec_resolve(
                    storage_root@,
                    #[trigger] template@[i][j],
                ) is None,
        },
{
    let mut out_sources: Vec<Source> = Vec::new();
    let mut si: usize = 0;
    while si < template.sources.len()
        invariant
            is_storage_root(storage_root@),
            si <= template.sources@.len(),
            out_sources@.len() == si,
            forall|i: int| 0 <= i < si ==> (#[trigger] out_sources@[i]@).len()
                == template@[i].len(),
            forall|i: int, j: int|
                0 <= i < si && 0 <= j < out_sources@[i]@.len() ==> spec_resolve(
                    storage_root@,
                    template@[i][j],
                ) == Some(#[trigger] out_sources@[i]@[j]),
        decreases template.sources@.len() - si,
    {
        let source = &template.sources[si];
        let mut resolved: Vec<String> = Vec::new();
        let mut pi: usize = 0;
        while pi < source.paths.len()
            invariant
                is_storage_root(storage_root@),
                source == &template.sources[si as int],
                si < template.sources@.len(),
                pi <= source.paths@.len(),
                resolved@.len() == pi,
                forall|j: int|
                    0 <= j < pi ==> spec_resolve(storage_root@, template@[si as int][j]) == Some(
                        (#[trigger] resolved@[j])@,
                    ),
            decreases source.paths@.len() - pi,
        {
            match resolve(storage_root, source.paths[pi].as_str()) {
                Ok(p) => {
                    resolved.push(p);
                },
                Err(e) => {
                    proof {
                        assert(template@[si as int][pi as int] == source.paths@[pi as int]@);
                        assert(spec_resolve(storage_root@, template@[si as int][pi as int])
                            is None);
                    }
                    return Err(e);
                },
            }
            pi = pi + 1;
        }
        out_sources.push(Source { paths: resolved });
        proof {
            assert(out_sources@.last()@ =~= resolved.deep_view());
        }
        si = si + 1;
    }
    let out = Template { sources: out_sources };
    proof {
        assert forall|i: int, j: int|
            0 <= i < out@.len() && 0 <= j < out@[i].len() implies is_descendant_of(
            #[trigger] out@[i][j],
            storage_root@,
        ) by {
            assert(spec_resolve(storage_root@, template@[i][j]) == Some(out@[i][j]));
            crate::path::lemma_resolve_confined(storage_root@, template@[i][j]);
        }
    }
    Ok(out)
}

/// Interpret the generator's output: an empty list means nothing could
/// be generated — a conflict, for instance because a playlist already
/// existed and the generator skipped it — otherwise the first produced
/// document is the result.
pub fn pick_generated(playlists: Vec<PlaylistDocument>) -> (r: Result<
    PlaylistDocument,
    StoreError,
>)
    ensures
        match r {
            Ok(d) => playlists@.len() > 0 && d@ == playlists@[0]@,
            Err(e) => e == StoreError::Conflict && playlists@.len() == 0,
        },
{
    let mut playlists = playlists;
    if playlists.is_empty() {
        Err(StoreError::Conflict)
    } else {
        Ok(playlists.remove(0))
    }
}

} // verus!
