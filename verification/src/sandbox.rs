//! Confining tools to a set of directories.
//!
//! Every server that touches the filesystem needs the same thing: resolve a
//! caller-supplied path, refuse anything outside the configured roots, and
//! refuse files too large to hold in memory.

use vstd::prelude::*;
use vstd::string::StringExecFns;
use vstd::utf8::*;

use crate::components;
use crate::components::{is_absolute, Platform};
use crate::path_laws;
use crate::paths;
use crate::paths::{is_within, resolve_for_comparison, show_path};
use crate::text;
use crate::text::{decimal_text, join, to_debug_quoted, trim};
use crate::tool::{ToolFailure, ToolResult};

verus! {

/// Default ceiling on a single file read.
pub const DEFAULT_MAX_FILE_BYTES: u64 = 64 * 1024 * 1024;

/// A configured root: its path, and what the system makes of it if it exists.
#[derive(Debug)]
pub struct Root {
    pub path: Vec<u8>,
    pub canonical: Option<Vec<u8>>,
}

/// A set of permitted roots and a size ceiling.
#[derive(Debug)]
pub struct Sandbox {
    roots: Vec<Vec<u8>>,
    max_file_bytes: u64,
}

/// What configured roots resolve to.
pub open spec fn resolved_roots(roots: Seq<Root>, platform: Platform) -> Seq<Seq<u8>> {
    Seq::new(
        roots.len(),
        |i: int|
            paths::resolved(roots[i].path@, paths::found_path(roots[i].canonical), platform),
    )
}

/// Whether a path lies inside one of some roots, or there are none.
pub open spec fn permitted(path: Seq<u8>, roots: Seq<Seq<u8>>, platform: Platform) -> bool {
    roots.len() == 0 || exists|i: int|
        0 <= i < roots.len() && paths::within(
            path,
            #[trigger] roots[i],
            paths::ignores_case(platform),
            platform,
        )
}

/// How the roots are listed.
pub open spec fn listed_roots(roots: Seq<Seq<u8>>, platform: Platform) -> Seq<char> {
    if roots.len() == 0 {
        "none configured"@
    } else {
        text::joined(Seq::new(roots.len(), |i: int| paths::path_text(roots[i], platform)), ", "@)
    }
}

impl Default for Sandbox {
    fn default() -> (sandbox: Sandbox)
        ensures
            sandbox.permitted_roots() == Seq::<Seq<u8>>::empty(),
            sandbox.ceiling() == DEFAULT_MAX_FILE_BYTES,
    {
        Sandbox::unrestricted(DEFAULT_MAX_FILE_BYTES)
    }
}

impl Clone for Sandbox {
    fn clone(&self) -> (copy: Sandbox)
        ensures
            copy.permitted_roots() == self.permitted_roots(),
            copy.ceiling() == self.ceiling(),
    {
        let mut roots: Vec<Vec<u8>> = Vec::new();
        for i in 0..self.roots.len()
            invariant
                roots.len() == i,
                forall|j: int| 0 <= j < i ==> (#[trigger] roots@[j])@ == self.roots@[j]@,
        {
            roots.push(components::copy_bytes(self.roots[i].as_slice()));
        }
        let copy = Sandbox { roots, max_file_bytes: self.max_file_bytes };
        assert(copy.permitted_roots() =~= self.permitted_roots());
        copy
    }
}

impl Sandbox {
    /// The resolved roots.
    pub closed spec fn permitted_roots(self) -> Seq<Seq<u8>> {
        paths::path_list(self.roots@)
    }

    /// The size ceiling.
    pub closed spec fn ceiling(self) -> u64 {
        self.max_file_bytes
    }

    /// An empty root set means unrestricted, which is the right default for a
    /// server the operator runs against their own machine.
    ///
    /// Each root is resolved once, so a symlinked root still matches paths
    /// resolved through it.
    pub fn new(roots: Vec<Root>, max_file_bytes: u64, platform: Platform) -> (sandbox: Sandbox)
        ensures
            sandbox.permitted_roots() == resolved_roots(roots@, platform),
            sandbox.ceiling() == max_file_bytes,
    {
        let mut kept: Vec<Vec<u8>> = Vec::new();
        for i in 0..roots.len()
            invariant
                kept.len() == i,
                forall|j: int|
                    0 <= j < i ==> (#[trigger] kept@[j])@ == resolved_roots(roots@, platform)[j],
        {
            let canonical = match &roots[i].canonical {
                Some(known) => Some(components::copy_bytes(known.as_slice())),
                None => None,
            };
            kept.push(resolve_for_comparison(roots[i].path.as_slice(), canonical, platform));
        }
        let sandbox = Sandbox { roots: kept, max_file_bytes };
        assert(sandbox.permitted_roots() =~= resolved_roots(roots@, platform));
        sandbox
    }

    pub fn unrestricted(max_file_bytes: u64) -> (sandbox: Sandbox)
        ensures
            sandbox.permitted_roots() == Seq::<Seq<u8>>::empty(),
            sandbox.ceiling() == max_file_bytes,
    {
        let sandbox = Sandbox { roots: Vec::new(), max_file_bytes };
        assert(sandbox.permitted_roots() =~= Seq::<Seq<u8>>::empty());
        sandbox
    }

    pub fn roots(&self) -> (roots: &[Vec<u8>])
        ensures
            paths::path_list(roots@) == self.permitted_roots(),
    {
        self.roots.as_slice()
    }

    pub fn max_file_bytes(&self) -> (ceiling: u64)
        ensures
            ceiling == self.ceiling(),
    {
        self.max_file_bytes
    }

    /// What resolving a caller-supplied path gives.
    pub open spec fn resolution(
        self,
        raw: Seq<char>,
        canonical: Option<Seq<u8>>,
        platform: Platform,
        result: ToolResult<Vec<u8>>,
    ) -> bool {
        let path = paths::resolved(encode_utf8(raw), canonical, platform);
        if text::trimmed(raw).len() == 0 {
            &&& result matches Err(ToolFailure::InvalidArguments(said))
            &&& said@ == "path must not be empty"@
        } else if !components::absolute(encode_utf8(raw), platform) {
            &&& result matches Err(ToolFailure::InvalidArguments(said))
            &&& said@ == "path "@ + text::debug_quoted(raw)
                + " must be absolute; the server has no meaningful working directory"@
        } else if permitted(path, self.permitted_roots(), platform) {
            &&& result matches Ok(resolved)
            &&& resolved@ == path
        } else {
            &&& result matches Err(ToolFailure::Denied(said))
            &&& said@ == "path "@ + text::debug_quoted(raw)
                + " is outside the permitted directories ("@ + listed_roots(
                self.permitted_roots(),
                platform,
            ) + ")"@
        }
    }

    /// Resolves a caller-supplied path, refusing anything outside the roots.
    ///
    /// `canonical` is what the system makes of the path if it exists, so that
    /// symlinks cannot step outside a root; a path that does not exist is
    /// normalised lexically, so creating a file still works.
    pub fn resolve(
        &self,
        raw: &str,
        canonical: Option<Vec<u8>>,
        platform: Platform,
    ) -> (result: ToolResult<Vec<u8>>)
        ensures
            self.resolution(raw@, paths::found_path(canonical), platform, result),
    {
        if trim(raw).is_empty() {
            return Err(ToolFailure::InvalidArguments("path must not be empty".to_owned()));
        }
        if !is_absolute(raw.as_bytes(), platform) {
            let mut said = "path ".to_owned();
            said.append(to_debug_quoted(raw).as_str());
            said.append(" must be absolute; the server has no meaningful working directory");
            return Err(ToolFailure::InvalidArguments(said));
        }
        let resolved = resolve_for_comparison(raw.as_bytes(), canonical, platform);
        if self.permits(resolved.as_slice(), platform) {
            return Ok(resolved);
        }
        let mut said = "path ".to_owned();
        said.append(to_debug_quoted(raw).as_str());
        said.append(" is outside the permitted directories (");
        said.append(self.describe_roots(platform).as_str());
        said.append(")");
        Err(ToolFailure::Denied(said))
    }

    fn permits(&self, path: &[u8], platform: Platform) -> (yes: bool)
        ensures
            yes == permitted(path@, self.permitted_roots(), platform),
    {
        let ghost roots = self.permitted_roots();
        if self.roots.len() == 0 {
            return true;
        }
        for i in 0..self.roots.len()
            invariant
                self.roots@.len() > 0,
                roots == self.permitted_roots(),
                forall|j: int|
                    0 <= j < i ==> !paths::within(
                        path@,
                        #[trigger] roots[j],
                        paths::ignores_case(platform),
                        platform,
                    ),
        {
            assert(roots[i as int] == self.roots@[i as int]@);
            if is_within(path, self.roots[i].as_slice(), platform) {
                return true;
            }
        }
        false
    }

    /// What checking a file's size gives.
    pub open spec fn size_check(
        self,
        path: Seq<u8>,
        length: Result<u64, String>,
        platform: Platform,
        result: ToolResult<u64>,
    ) -> bool {
        match length {
            Err(error) => {
                &&& result matches Err(ToolFailure::Failed(said))
                &&& said@ == "could not stat "@ + paths::path_text(path, platform) + ": "@ + error@
            },
            Ok(length) => if length > self.ceiling() {
                &&& result matches Err(ToolFailure::Denied(said))
                &&& said@ == paths::path_text(path, platform) + " is "@ + text::decimal(length as nat)
                    + " bytes, over the "@ + text::decimal(self.ceiling() as nat)
                    + " byte limit; raise the size limit to proceed"@
            } else {
                result == Ok::<u64, ToolFailure>(length)
            },
        }
    }

    /// Refuses a file larger than the ceiling, returning its size otherwise.
    /// `length` is what the system says of the file's size.
    ///
    /// Several tools read a whole file into memory to rewrite it, so without
    /// this a large target exhausts memory.
    pub fn check_size(
        &self,
        path: &[u8],
        length: Result<u64, String>,
        platform: Platform,
    ) -> (result: ToolResult<u64>)
        ensures
            self.size_check(path@, length, platform, result),
    {
        match length {
            Err(error) => {
                let mut said = "could not stat ".to_owned();
                said.append(show_path(path, platform).as_str());
                said.append(": ");
                said.append(error.as_str());
                Err(ToolFailure::Failed(said))
            },
            Ok(length) => {
                if length > self.max_file_bytes {
                    let mut said = show_path(path, platform);
                    said.append(" is ");
                    said.append(decimal_text(length as u128).as_str());
                    said.append(" bytes, over the ");
                    said.append(decimal_text(self.max_file_bytes as u128).as_str());
                    said.append(" byte limit; raise the size limit to proceed");
                    return Err(ToolFailure::Denied(said));
                }
                Ok(length)
            },
        }
    }

    fn describe_roots(&self, platform: Platform) -> (said: String)
        ensures
            said@ == listed_roots(self.permitted_roots(), platform),
    {
        if self.roots.len() == 0 {
            return "none configured".to_owned();
        }
        let mut shown: Vec<String> = Vec::new();
        for i in 0..self.roots.len()
            invariant
                shown.len() == i,
                forall|j: int|
                    0 <= j < i ==> (#[trigger] shown@[j])@ == paths::path_text(
                        self.roots@[j]@,
                        platform,
                    ),
        {
            shown.push(show_path(self.roots[i].as_slice(), platform));
        }
        let ghost roots = self.permitted_roots();
        assert(text::texts(shown@) =~= Seq::new(
            roots.len(),
            |i: int| paths::path_text(roots[i], platform),
        ));
        join(shown.as_slice(), ", ")
    }
}

/// A path is given out only if it lies inside a root, where there are roots.
pub proof fn nothing_outside_the_roots_is_given_out(
    sandbox: Sandbox,
    raw: Seq<char>,
    canonical: Option<Seq<u8>>,
    platform: Platform,
    result: ToolResult<Vec<u8>>,
)
    requires
        sandbox.resolution(raw, canonical, platform, result),
        sandbox.permitted_roots().len() > 0,
        result is Ok,
    ensures
        exists|i: int|
            0 <= i < sandbox.permitted_roots().len() && paths::within(
                result->Ok_0@,
                #[trigger] sandbox.permitted_roots()[i],
                paths::ignores_case(platform),
                platform,
            ),
{
}

/// A path that does not exist yet is given out absolute and without `.` and
/// `..`, so no such step can lead it out of a root. (On Windows a name can be read
/// as a path of its own, and a verbatim path may be none without its mark.)
pub proof fn dot_dot_cannot_escape(
    sandbox: Sandbox,
    raw: Seq<char>,
    platform: Platform,
    result: ToolResult<Vec<u8>>,
)
    requires
        path_laws::settles(encode_utf8(raw), platform),
        path_laws::strips_well(encode_utf8(raw), platform),
        path_laws::ends_absolute(
            components::components_of(encode_utf8(raw), platform),
            platform,
        ),
        sandbox.resolution(raw, None, platform, result),
        result is Ok,
    ensures
        path_laws::clean(components::components_of(result->Ok_0@, platform), platform),
        components::absolute(result->Ok_0@, platform),
{
    path_laws::a_resolved_path_has_no_dots(encode_utf8(raw), platform);
}

/// Without roots, every absolute path is given out.
pub proof fn no_roots_means_unrestricted(
    sandbox: Sandbox,
    raw: Seq<char>,
    canonical: Option<Seq<u8>>,
    platform: Platform,
    result: ToolResult<Vec<u8>>,
)
    requires
        sandbox.resolution(raw, canonical, platform, result),
        sandbox.permitted_roots().len() == 0,
        text::trimmed(raw).len() > 0,
        components::absolute(encode_utf8(raw), platform),
    ensures
        result is Ok,
{
}

/// Every root counts: a path that lies inside any one of them, at whatever place
/// that stands, is given out as it resolves.
pub proof fn every_root_permits_what_lies_inside(
    sandbox: Sandbox,
    raw: Seq<char>,
    canonical: Option<Seq<u8>>,
    platform: Platform,
    result: ToolResult<Vec<u8>>,
    i: int,
)
    requires
        sandbox.resolution(raw, canonical, platform, result),
        text::trimmed(raw).len() > 0,
        components::absolute(encode_utf8(raw), platform),
        0 <= i < sandbox.permitted_roots().len(),
        paths::within(
            paths::resolved(encode_utf8(raw), canonical, platform),
            sandbox.permitted_roots()[i],
            paths::ignores_case(platform),
            platform,
        ),
    ensures
        result matches Ok(path) && path@ == paths::resolved(encode_utf8(raw), canonical, platform),
{
}

/// A path that lies inside none of the roots is denied, and the denial names the
/// path and every root.
pub proof fn what_lies_outside_every_root_is_denied(
    sandbox: Sandbox,
    raw: Seq<char>,
    canonical: Option<Seq<u8>>,
    platform: Platform,
    result: ToolResult<Vec<u8>>,
    i: int,
)
    requires
        sandbox.resolution(raw, canonical, platform, result),
        text::trimmed(raw).len() > 0,
        components::absolute(encode_utf8(raw), platform),
        0 <= i < sandbox.permitted_roots().len(),
        forall|j: int|
            0 <= j < sandbox.permitted_roots().len() ==> !paths::within(
                paths::resolved(encode_utf8(raw), canonical, platform),
                #[trigger] sandbox.permitted_roots()[j],
                paths::ignores_case(platform),
                platform,
            ),
    ensures
        result matches Err(ToolFailure::Denied(said)) && text::holds(
            said@,
            text::debug_quoted(raw),
        ) && text::holds(said@, paths::path_text(sandbox.permitted_roots()[i], platform)),
{
    let roots = sandbox.permitted_roots();
    let shown = Seq::new(roots.len(), |k: int| paths::path_text(roots[k], platform));
    let listed = text::joined(shown, ", "@);
    let quoted = text::debug_quoted(raw);
    text::lemma_joined_holds(shown, ", "@, i);
    let before = "path "@ + quoted + " is outside the permitted directories ("@;
    text::lemma_holds_within(before, listed, ")"@, shown[i]);
    text::lemma_holds(
        "path "@,
        quoted,
        " is outside the permitted directories ("@ + listed + ")"@,
    );
    assert("path "@ + quoted + (" is outside the permitted directories ("@ + listed + ")"@)
        =~= before + listed + ")"@);
    assert(listed_roots(roots, platform) == listed);
}

/// A blank path and one that is not absolute are the caller's mistake: nothing is
/// given out for them, whatever the roots are.
pub proof fn only_absolute_paths_are_resolved(
    sandbox: Sandbox,
    raw: Seq<char>,
    canonical: Option<Seq<u8>>,
    platform: Platform,
    result: ToolResult<Vec<u8>>,
)
    requires
        sandbox.resolution(raw, canonical, platform, result),
        text::trimmed(raw).len() == 0 || !components::absolute(encode_utf8(raw), platform),
    ensures
        result matches Err(ToolFailure::InvalidArguments(_)),
{
}

/// What is given out is what the path resolves to, and nothing else.
pub proof fn what_is_given_out_is_the_path_asked_for(
    sandbox: Sandbox,
    raw: Seq<char>,
    canonical: Option<Seq<u8>>,
    platform: Platform,
    result: ToolResult<Vec<u8>>,
)
    requires
        sandbox.resolution(raw, canonical, platform, result),
        result is Ok,
    ensures
        result->Ok_0@ == paths::resolved(encode_utf8(raw), canonical, platform),
        text::trimmed(raw).len() > 0,
        components::absolute(encode_utf8(raw), platform),
{
}

/// Each configured root is kept, in its place: as what the system makes of it
/// where it exists, else as its normal form, and free of verbatim prefixes.
pub proof fn every_configured_root_is_kept(roots: Seq<Root>, platform: Platform, i: int)
    requires
        0 <= i < roots.len(),
    ensures
        resolved_roots(roots, platform).len() == roots.len(),
        resolved_roots(roots, platform)[i] == paths::bared(
            match roots[i].canonical {
                Some(known) => known@,
                None => paths::normalized(roots[i].path@, platform),
            },
            platform,
        ),
{
}

/// A file is let through if and only if its size is known and no larger than the
/// ceiling, and then with its size; otherwise the refusal names the file, and its
/// size and the ceiling or why the size is not known.
pub proof fn only_files_within_the_ceiling_pass(
    sandbox: Sandbox,
    path: Seq<u8>,
    length: Result<u64, String>,
    platform: Platform,
    result: ToolResult<u64>,
)
    requires
        sandbox.size_check(path, length, platform, result),
    ensures
        match length {
            Ok(size) => {
                &&& size <= sandbox.ceiling() ==> result == Ok::<u64, ToolFailure>(size)
                &&& size > sandbox.ceiling() ==> {
                    &&& result matches Err(ToolFailure::Denied(said))
                    &&& text::holds(said@, paths::path_text(path, platform))
                    &&& text::holds(said@, text::decimal(size as nat))
                    &&& text::holds(said@, text::decimal(sandbox.ceiling() as nat))
                }
            },
            Err(error) => {
                &&& result matches Err(ToolFailure::Failed(said))
                &&& text::holds(said@, paths::path_text(path, platform))
                &&& text::holds(said@, error@)
            },
        },
{
    let shown = paths::path_text(path, platform);
    let nothing = Seq::<char>::empty();
    match length {
        Ok(size) => {
            if size > sandbox.ceiling() {
                let said = result->Err_0->Denied_0@;
                let number = text::decimal(size as nat);
                let bound = text::decimal(sandbox.ceiling() as nat);
                let tail = " byte limit; raise the size limit to proceed"@;
                let middle = " is "@ + number + " bytes, over the "@ + bound + tail;
                text::lemma_holds(nothing, shown, middle);
                assert(nothing + shown + middle =~= said);
                text::lemma_holds(
                    shown + " is "@,
                    number,
                    " bytes, over the "@ + bound + tail,
                );
                assert(shown + " is "@ + number + (" bytes, over the "@ + bound + tail) =~= said);
                text::lemma_holds(shown + " is "@ + number + " bytes, over the "@, bound, tail);
                assert(shown + " is "@ + number + " bytes, over the "@ + bound + tail =~= said);
            }
        },
        Err(error) => {
            let said = result->Err_0->Failed_0@;
            text::lemma_holds("could not stat "@, shown, ": "@ + error@);
            assert("could not stat "@ + shown + (": "@ + error@) =~= said);
            text::lemma_holds("could not stat "@ + shown + ": "@, error@, nothing);
            assert("could not stat "@ + shown + ": "@ + error@ + nothing =~= said);
        },
    }
}

} // verus!
