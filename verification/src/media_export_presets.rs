//! Scoped, versioned presets built on top of validated media export profiles.
use vstd::prelude::*;
use crate::media_export::{container_extension, export_args, export_check, AudioCodec, Container, ExportError, ExportProfile, VideoCodec};

use crate::text::{is_plain_name, owned, plain_name, push_str, str_eq, views};
use crate::time::{secs_nanos, Duration};

verus! {

#[derive(Debug, Clone, Copy, PartialEq, Eq, Structural)]
pub enum ExportPresetError {
    InvalidId,
    InvalidScope,
    InvalidName,
    Duplicate,
    Missing,
    Capacity,
    RevisionConflict,
    ScopeMismatch,
    Export(ExportError),
}

#[derive(Debug, Clone, PartialEq, Eq)]
pub struct MediaExportPreset {
    pub id: String,
    pub scope: String,
    pub name: String,
    pub version: u64,
    pub width: u16,
    pub height: u16,
    pub video_bitrate_kbps: u32,
    pub audio_bitrate_kbps: u32,
    pub video_codec: VideoCodec,
    pub audio_codec: AudioCodec,
    pub container: Container,
    pub duration: Option<Duration>,
}

/// Presets by id, each owned by one scope and versioned for optimistic updates.
#[derive(Debug)]
pub struct MediaExportPresetStore {
    entries: Vec<MediaExportPreset>,
    max_entries: usize,
}

pub open spec fn preset_ids(entries: Seq<MediaExportPreset>) -> Seq<Seq<char>> {
    entries.map_values(|p: MediaExportPreset| p.id@)
}

pub open spec fn unique_preset_ids(entries: Seq<MediaExportPreset>) -> bool {
    forall|i: int, j: int|
        0 <= i < entries.len() && 0 <= j < entries.len() && i != j ==> #[trigger] entries[i].id@
            != #[trigger] entries[j].id@
}

pub open spec fn preset_position(entries: Seq<MediaExportPreset>, id: Seq<char>) -> int {
    preset_ids(entries).index_of(id)
}

/// The output path a preset renders to.
pub open spec fn render_path(id: Seq<char>, c: Container) -> Seq<char> {
    "renders/"@ + id + "."@ + container_extension(c)
}

/// What `create` answers.
pub open spec fn create_check(
    entries: Seq<MediaExportPreset>,
    max: nat,
    id: Seq<char>,
    scope: Seq<char>,
    name: Seq<char>,
    width: u16,
    height: u16,
    vb: u32,
    ab: u32,
    vc: VideoCodec,
    ac: AudioCodec,
    c: Container,
) -> Result<(), ExportPresetError> {
    if !plain_name(id, 128) {
        Err(ExportPresetError::InvalidId)
    } else if !plain_name(scope, 128) {
        Err(ExportPresetError::InvalidScope)
    } else if !plain_name(name, 128) {
        Err(ExportPresetError::InvalidName)
    } else if export_check("preset.mp4"@, width, height, vb, ab, vc, ac, c) is Err {
        Err(
            ExportPresetError::Export(
                export_check("preset.mp4"@, width, height, vb, ab, vc, ac, c)->Err_0,
            ),
        )
    } else if entries.len() >= max {
        Err(ExportPresetError::Capacity)
    } else if preset_ids(entries).contains(id) {
        Err(ExportPresetError::Duplicate)
    } else {
        Ok(())
    }
}

/// The preset `id` if it belongs to `scope` and has `version`.
pub open spec fn current_check(
    entries: Seq<MediaExportPreset>,
    id: Seq<char>,
    scope: Seq<char>,
    version: u64,
) -> Result<MediaExportPreset, ExportPresetError> {
    if !preset_ids(entries).contains(id) {
        Err(ExportPresetError::Missing)
    } else {
        let p = entries[preset_position(entries, id)];
        if p.scope@ != scope {
            Err(ExportPresetError::ScopeMismatch)
        } else if p.version != version {
            Err(ExportPresetError::RevisionConflict)
        } else {
            Ok(p)
        }
    }
}

fn copy_preset(p: &MediaExportPreset) -> (r: MediaExportPreset)
    ensures
        r == *p,
{
    MediaExportPreset {
        id: p.id.clone(),
        scope: p.scope.clone(),
        name: p.name.clone(),
        version: p.version,
        width: p.width,
        height: p.height,
        video_bitrate_kbps: p.video_bitrate_kbps,
        audio_bitrate_kbps: p.audio_bitrate_kbps,
        video_codec: p.video_codec,
        audio_codec: p.audio_codec,
        container: p.container,
        duration: p.duration,
    }
}

impl MediaExportPresetStore {
    pub closed spec fn entries(&self) -> Seq<MediaExportPreset> {
        self.entries@
    }

    pub closed spec fn capacity(&self) -> nat {
        self.max_entries as nat
    }

    pub closed spec fn wf(&self) -> bool {
        &&& self.max_entries >= 1
        &&& self.entries@.len() <= self.max_entries
        &&& unique_preset_ids(self.entries@)
    }

    /// An empty store with room for `max_entries` presets (at least one).
    pub fn new(max_entries: usize) -> (s: MediaExportPresetStore)
        ensures
            s.wf(),
            s.entries().len() == 0,
            s.capacity() == if max_entries < 1 {
                1
            } else {
                max_entries as nat
            },
    {
        MediaExportPresetStore {
            entries: Vec::new(),
            max_entries: if max_entries < 1 {
                1
            } else {
                max_entries
            },
        }
    }

    fn find(&self, id: &str) -> (r: Option<usize>)
        requires
            self.wf(),
        ensures
            r matches Some(i) ==> i < self.entries().len() && self.entries()[i as int].id@ == id@
                && preset_ids(self.entries()).contains(id@) && preset_position(
                self.entries(),
                id@,
            ) == i,
            r is None ==> !preset_ids(self.entries()).contains(id@),
    {
        let ghost ids = preset_ids(self.entries@);
        let mut i: usize = 0;
        while i < self.entries.len()
            invariant
                self.wf(),
                ids == preset_ids(self.entries@),
                i <= self.entries@.len(),
                forall|j: int| 0 <= j < i ==> self.entries@[j].id@ != id@,
            decreases self.entries@.len() - i,
        {
            if str_eq(self.entries[i].id.as_str(), id) {
                proof {
                    assert(ids[i as int] == id@);
                    let k = ids.index_of(id@);
                    assert(ids[k] == self.entries@[k].id@);
                }
                return Some(i);
            }
            i = i + 1;
        }
        proof {
            if ids.contains(id@) {
                let k = ids.index_of(id@);
                assert(ids[k] == self.entries@[k].id@);
            }
        }
        None
    }

    /// Records a new preset at version 1.
    pub fn create(
        &mut self,
        id: String,
        scope: String,
        name: String,
        width: u16,
        height: u16,
        vb: u32,
        ab: u32,
        vc: VideoCodec,
        ac: AudioCodec,
        c: Container,
    ) -> (r: Result<MediaExportPreset, ExportPresetError>)
        requires
            old(self).wf(),
        ensures
            final(self).wf(),
            final(self).capacity() == old(self).capacity(),
            match create_check(
                old(self).entries(),
                old(self).capacity(),
                id@,
                scope@,
                name@,
                width,
                height,
                vb,
                ab,
                vc,
                ac,
                c,
            ) {
                Err(e) => r == Err::<MediaExportPreset, _>(e) && final(self).entries() == old(self).entries(),
                Ok(()) => r == Ok::<_, ExportPresetError>(
                    MediaExportPreset {
                        id,
                        scope,
                        name,
                        version: 1,
                        width,
                        height,
                        video_bitrate_kbps: vb,
                        audio_bitrate_kbps: ab,
                        video_codec: vc,
                        audio_codec: ac,
                        container: c,
                        duration: None,
                    },
                ) && final(self).entries() == old(self).entries().push(r->Ok_0),
            },
    {
        if !is_plain_name(id.as_str(), 128) {
            return Err(ExportPresetError::InvalidId);
        }
        if !is_plain_name(scope.as_str(), 128) {
            return Err(ExportPresetError::InvalidScope);
        }
        if !is_plain_name(name.as_str(), 128) {
            return Err(ExportPresetError::InvalidName);
        }
        match ExportProfile::new("preset.mp4", width, height, vb, ab, vc, ac, c) {
            Err(e) => {
                return Err(ExportPresetError::Export(e));
            },
            Ok(_) => {},
        }
        if self.entries.len() >= self.max_entries {
            return Err(ExportPresetError::Capacity);
        }
        if self.find(id.as_str()).is_some() {
            return Err(ExportPresetError::Duplicate);
        }
        let p = MediaExportPreset {
            id,
            scope,
            name,
            version: 1,
            width,
            height,
            video_bitrate_kbps: vb,
            audio_bitrate_kbps: ab,
            video_codec: vc,
            audio_codec: ac,
            container: c,
            duration: None,
        };
        let out = copy_preset(&p);
        let ghost old_entries = self.entries@;
        self.entries.push(p);
        proof {
            let e = self.entries@;
            assert forall|a: int, b: int|
                0 <= a < e.len() && 0 <= b < e.len() && a != b implies #[trigger] e[a].id@
                != #[trigger] e[b].id@ by {
                if a < old_entries.len() && b < old_entries.len() {
                    assert(e[a] == old_entries[a] && e[b] == old_entries[b]);
                } else if a == old_entries.len() {
                    assert(e[b] == old_entries[b]);
                    assert(preset_ids(old_entries)[b] == old_entries[b].id@);
                } else {
                    assert(e[a] == old_entries[a]);
                    assert(preset_ids(old_entries)[a] == old_entries[a].id@);
                }
            }
        }
        Ok(out)
    }

    /// Sets the duration of preset `id` of `scope` at version `expected`, and moves it to the
    /// next version.
    pub fn duration(&mut self, id: &str, scope: &str, expected: u64, d: Duration) -> (r: Result<
        MediaExportPreset,
        ExportPresetError,
    >)
        requires
            old(self).wf(),
        ensures
            final(self).wf(),
            final(self).capacity() == old(self).capacity(),
            !(d@ > 0 && d@ <= secs_nanos(86_400)) ==> r == Err::<MediaExportPreset, _>(
                ExportPresetError::Export(ExportError::InvalidDuration),
            ) && final(self).entries() == old(self).entries(),
            d@ > 0 && d@ <= secs_nanos(86_400) ==> match current_check(
                old(self).entries(),
                id@,
                scope@,
                expected,
            ) {
                Err(e) => r == Err::<MediaExportPreset, _>(e) && final(self).entries() == old(self).entries(),
                Ok(p) => r == Ok::<_, ExportPresetError>(
                    MediaExportPreset {
                        duration: Some(d),
                        version: if p.version == u64::MAX {
                            0
                        } else {
                            (p.version + 1) as u64
                        },
                        ..p
                    },
                ) && final(self).entries() == old(self).entries().update(
                    preset_position(old(self).entries(), id@),
                    r->Ok_0,
                ),
            },
    {
        let day = Duration::from_secs(86_400);
        if d.is_zero() || day.shorter_than(&d) {
            return Err(ExportPresetError::Export(ExportError::InvalidDuration));
        }
        let i = match self.find(id) {
            None => {
                return Err(ExportPresetError::Missing);
            },
            Some(i) => i,
        };
        if !str_eq(self.entries[i].scope.as_str(), scope) {
            return Err(ExportPresetError::ScopeMismatch);
        }
        if self.entries[i].version != expected {
            return Err(ExportPresetError::RevisionConflict);
        }
        let ghost old_entries = self.entries@;
        let next = if self.entries[i].version == u64::MAX {
            0
        } else {
            self.entries[i].version + 1
        };
        self.entries[i].duration = Some(d);
        self.entries[i].version = next;
        proof {
            let e = self.entries@;
            assert forall|a: int, b: int|
                0 <= a < e.len() && 0 <= b < e.len() && a != b implies #[trigger] e[a].id@
                != #[trigger] e[b].id@ by {
                assert(e[a].id == old_entries[a].id && e[b].id == old_entries[b].id);
            }
        }
        Ok(copy_preset(&self.entries[i]))
    }

    /// The FFmpeg arguments for preset `id` of `scope` at `version`, reading `input`.
    pub fn command_line(&self, id: &str, scope: &str, version: u64, input: &str) -> (r: Result<
        Vec<String>,
        ExportPresetError,
    >)
        requires
            self.wf(),
        ensures
            match current_check(self.entries(), id@, scope@, version) {
                Err(e) => r == Err::<Vec<String>, _>(e),
                Ok(p) => match export_check(
                    render_path(p.id@, p.container),
                    p.width,
                    p.height,
                    p.video_bitrate_kbps,
                    p.audio_bitrate_kbps,
                    p.video_codec,
                    p.audio_codec,
                    p.container,
                ) {
                    Err(e) => r == Err::<Vec<String>, _>(ExportPresetError::Export(e)),
                    Ok(()) => r matches Ok(args) && exists|profile: ExportProfile|
                        profile.output@ == render_path(p.id@, p.container) && profile.width
                            == p.width && profile.height == p.height && profile.video_bitrate_kbps
                            == p.video_bitrate_kbps && profile.audio_bitrate_kbps
                            == p.audio_bitrate_kbps && profile.video_codec == p.video_codec
                            && profile.audio_codec == p.audio_codec && profile.container
                            == p.container && profile.duration is None && views(args@) == seq![
                            "-i"@,
                            input@,
                        ] + export_args(profile),
                },
            },
    {
        let i = match self.find(id) {
            None => {
                return Err(ExportPresetError::Missing);
            },
            Some(i) => i,
        };
        let p = &self.entries[i];
        if !str_eq(p.scope.as_str(), scope) {
            return Err(ExportPresetError::ScopeMismatch);
        }
        if p.version != version {
            return Err(ExportPresetError::RevisionConflict);
        }
        let mut path = owned("renders/");
        push_str(&mut path, p.id.as_str());
        push_str(&mut path, ".");
        push_str(&mut path, p.container.extension());
        assert(path@ =~= render_path(p.id@, p.container));
        let profile = match ExportProfile::new(
            path.as_str(),
            p.width,
            p.height,
            p.video_bitrate_kbps,
            p.audio_bitrate_kbps,
            p.video_codec,
            p.audio_codec,
            p.container,
        ) {
            Ok(x) => x,
            Err(e) => {
                return Err(ExportPresetError::Export(e));
            },
        };
        let mut args: Vec<String> = Vec::new();
        args.push(owned("-i"));
        args.push(owned(input));
        let rest = profile.command_line();
        let mut k: usize = 0;
        while k < rest.len()
            invariant
                k <= rest@.len(),
                views(args@) == seq!["-i"@, input@] + views(rest@).take(k as int),
            decreases rest@.len() - k,
        {
            let ghost before = views(args@);
            args.push(rest[k].clone());
            proof {
                assert(views(args@) =~= before.push(rest@[k as int]@));
                assert(views(rest@).take(k + 1) =~= views(rest@).take(k as int).push(
                    rest@[k as int]@,
                ));
            }
            k = k + 1;
            assert(views(args@) =~= seq!["-i"@, input@] + views(rest@).take(k as int));
        }
        assert(views(rest@).take(rest@.len() as int) =~= views(rest@));
        Ok(args)
    }
}

} // verus!
