use vstd::prelude::*;

use crate::image::{image_lines, Image, ImageView};
use crate::music::Music;
use crate::old_resource_data::{
    lines_of, old_music, old_sound, tilemap_lines, views_of, ResourceError, SoundData, SoundDataView,
    Tilemap, DEFAULT_SOUND_SPEED, NUM_CHANNELS,
};

verus! {

/// The entry at `index` of a resource bank did not read.
#[derive(Debug, Clone, Copy, PartialEq, Eq)]
pub struct StageError {
    pub index: usize,
    pub error: ResourceError,
}

/// `r` is what staging a bank gives when its entries read as `rs`: every item where
/// every entry reads, else the first entry that does not, with its error.
pub open spec fn staged<V>(rs: Seq<Result<V, ResourceError>>, r: Result<Seq<V>, StageError>) -> bool {
    match r {
        Ok(v) => v.len() == rs.len() && forall|i: int| 0 <= i < rs.len() ==> #[trigger] rs[i] == Ok::<V, ResourceError>(v[i]),
        Err(e) => {
            &&& e.index < rs.len()
            &&& rs[e.index as int] == Err::<V, ResourceError>(e.error)
            &&& forall|j: int| 0 <= j < e.index ==> #[trigger] rs[j] is Ok
        },
    }
}

/// The text of an entry, or `None` where the archive has no such entry.
pub open spec fn entry_text(e: Option<String>) -> Option<Seq<char>> {
    match e {
        Some(t) => Some(t@),
        None => None,
    }
}

/// A sound entry read, or the empty sound where there is none.
pub open spec fn sound_entry(e: Option<Seq<char>>) -> Result<SoundDataView, ResourceError> {
    match e {
        Some(t) => old_sound(t),
        None => Ok(SoundDataView {
            notes: Seq::empty(),
            tones: Seq::empty(),
            volumes: Seq::empty(),
            effects: Seq::empty(),
            speed: DEFAULT_SOUND_SPEED,
        }),
    }
}

/// A music entry read, or silent channels where there is none.
pub open spec fn music_entry(e: Option<Seq<char>>) -> Result<Seq<Seq<u32>>, ResourceError> {
    match e {
        Some(t) => old_music(t),
        None => Ok(Seq::new(NUM_CHANNELS as nat, |k: int| Seq::<u32>::empty())),
    }
}

/// Reads the sound entries of an archive; the sounds only where every entry reads.
pub fn stage_sounds(entries: &Vec<Option<String>>) -> (r: Result<Vec<SoundData>, StageError>)
    ensures
        staged(
            entries@.map_values(|e: Option<String>| sound_entry(entry_text(e))),
            match r {
                Ok(v) => Ok(v@.map_values(|s: SoundData| s@)),
                Err(e) => Err(e),
            },
        ),
{
    let ghost rs = entries@.map_values(|e: Option<String>| sound_entry(entry_text(e)));
    let mut out: Vec<SoundData> = Vec::new();
    let mut i: usize = 0;
    while i < entries.len()
        invariant
            i <= entries@.len(),
            rs == entries@.map_values(|e: Option<String>| sound_entry(entry_text(e))),
            out@.len() == i,
            forall|j: int| 0 <= j < i ==> #[trigger] rs[j] == Ok::<SoundDataView, ResourceError>(out@[j]@),
        decreases entries@.len() - i,
    {
        let item = match &entries[i] {
            Some(text) => match SoundData::deserialize_old(text.as_str()) {
                Ok(sound) => sound,
                Err(error) => {
                    return Err(StageError { index: i, error });
                },
            },
            None => SoundData::new(),
        };
        out.push(item);
        i = i + 1;
    }
    proof {
        let v = out@.map_values(|s: SoundData| s@);
        assert forall|j: int| 0 <= j < rs.len() implies #[trigger] rs[j] == Ok::<SoundDataView, ResourceError>(v[j]) by {
            assert(rs[j] == Ok::<SoundDataView, ResourceError>(out@[j]@));
        }
    }
    Ok(out)
}

/// Reads the music entries of an archive; the music only where every entry reads.
pub fn stage_musics(entries: &Vec<Option<String>>) -> (r: Result<Vec<Music>, StageError>)
    ensures
        staged(
            entries@.map_values(|e: Option<String>| music_entry(entry_text(e))),
            match r {
                Ok(v) => Ok(v@.map_values(|m: Music| views_of(m.seqs@))),
                Err(e) => Err(e),
            },
        ),
{
    let ghost rs = entries@.map_values(|e: Option<String>| music_entry(entry_text(e)));
    let mut out: Vec<Music> = Vec::new();
    let mut i: usize = 0;
    while i < entries.len()
        invariant
            i <= entries@.len(),
            rs == entries@.map_values(|e: Option<String>| music_entry(entry_text(e))),
            out@.len() == i,
            forall|j: int| 0 <= j < i ==> #[trigger] rs[j] == Ok::<Seq<Seq<u32>>, ResourceError>(views_of(out@[j].seqs@)),
        decreases entries@.len() - i,
    {
        let mut item = Music::new();
        match &entries[i] {
            Some(text) => match item.deserialize_old(text.as_str()) {
                Ok(()) => {},
                Err(error) => {
                    return Err(StageError { index: i, error });
                },
            },
            None => {
                item.set(&Vec::new(), NUM_CHANNELS as usize);
                assert(views_of(item.seqs@) =~= Seq::new(NUM_CHANNELS as nat, |k: int| Seq::<u32>::empty()));
            },
        }
        out.push(item);
        i = i + 1;
    }
    proof {
        let v = out@.map_values(|m: Music| views_of(m.seqs@));
        assert forall|j: int| 0 <= j < rs.len() implies #[trigger] rs[j] == Ok::<Seq<Seq<u32>>, ResourceError>(v[j]) by {
            assert(rs[j] == Ok::<Seq<Seq<u32>>, ResourceError>(views_of(out@[j].seqs@)));
        }
    }
    Ok(out)
}

/// An image entry read over the image, or the image cleared to color 0 where there is none.
pub open spec fn image_entry(v: ImageView, e: Option<Seq<char>>) -> Result<ImageView, ResourceError> {
    match e {
        Some(t) => match image_lines(lines_of(t), 0, v.width as int, v.height as int, v.data) {
            Ok(d) => Ok(ImageView { data: d, ..v }),
            Err(err) => Err(err),
        },
        None => Ok(ImageView { data: Seq::new(v.data.len(), |k: int| v.palette[0]), ..v }),
    }
}

/// Reads the image entries of an archive over copies of `current`, one entry per image;
/// the images only where every entry reads.
pub fn stage_images(current: &Vec<Image>, entries: &Vec<Option<String>>) -> (r: Result<Vec<Image>, StageError>)
    requires
        entries@.len() == current@.len(),
        forall|i: int| 0 <= i < current@.len() ==> #[trigger] current@[i].wf(),
    ensures
        r matches Ok(v) ==> forall|i: int| 0 <= i < v@.len() ==> #[trigger] v@[i].wf(),
        staged(
            Seq::new(entries@.len(), |i: int| image_entry(current@[i]@, entry_text(entries@[i]))),
            match r {
                Ok(v) => Ok(v@.map_values(|img: Image| img@)),
                Err(e) => Err(e),
            },
        ),
{
    let ghost rs = Seq::new(entries@.len(), |i: int| image_entry(current@[i]@, entry_text(entries@[i])));
    let mut out: Vec<Image> = Vec::new();
    let mut i: usize = 0;
    while i < entries.len()
        invariant
            i <= entries@.len() == current@.len(),
            forall|j: int| 0 <= j < current@.len() ==> #[trigger] current@[j].wf(),
            rs == Seq::new(entries@.len(), |i: int| image_entry(current@[i]@, entry_text(entries@[i]))),
            out@.len() == i,
            forall|j: int| 0 <= j < i ==> #[trigger] out@[j].wf(),
            forall|j: int| 0 <= j < i ==> #[trigger] rs[j] == Ok::<ImageView, ResourceError>(out@[j]@),
        decreases entries@.len() - i,
    {
        let mut item = current[i].copy();
        match &entries[i] {
            Some(text) => match item.deserialize_old(text.as_str()) {
                Ok(()) => {},
                Err(error) => {
                    return Err(StageError { index: i, error });
                },
            },
            None => {
                item.clear(0);
            },
        }
        out.push(item);
        i = i + 1;
    }
    proof {
        let v = out@.map_values(|img: Image| img@);
        assert forall|j: int| 0 <= j < rs.len() implies #[trigger] rs[j] == Ok::<ImageView, ResourceError>(v[j]) by {
            assert(rs[j] == Ok::<ImageView, ResourceError>(out@[j]@));
        }
    }
    Ok(out)
}

/// A tilemap entry read over the tilemap's tiles and image index, or every tile set to
/// `(0, 0)` where there is none.
pub open spec fn tilemap_entry(t: Tilemap, version: u32, e: Option<Seq<char>>) -> Result<(Seq<(u8, u8)>, u32), ResourceError> {
    match e {
        Some(text) => tilemap_lines(lines_of(text), 0, version, t.width as int, t.tiles@, t.imgsrc),
        None => Ok((Seq::new(t.tiles@.len(), |k: int| (0u8, 0u8)), t.imgsrc)),
    }
}

/// Reads the tilemap entries of an archive of `version` over copies of `current`, one
/// entry per tilemap; the tilemaps only where every entry reads.
pub fn stage_tilemaps(current: &Vec<Tilemap>, version: u32, entries: &Vec<Option<String>>) -> (r: Result<Vec<Tilemap>, StageError>)
    requires
        entries@.len() == current@.len(),
        forall|i: int| 0 <= i < current@.len() ==> #[trigger] current@[i].wf(),
    ensures
        r matches Ok(v) ==> forall|i: int| 0 <= i < v@.len() ==> {
            &&& #[trigger] v@[i].width == current@[i].width
            &&& v@[i].height == current@[i].height
        },
        staged(
            Seq::new(entries@.len(), |i: int| tilemap_entry(current@[i], version, entry_text(entries@[i]))),
            match r {
                Ok(v) => Ok(v@.map_values(|t: Tilemap| (t.tiles@, t.imgsrc))),
                Err(e) => Err(e),
            },
        ),
{
    let ghost rs = Seq::new(entries@.len(), |i: int| tilemap_entry(current@[i], version, entry_text(entries@[i])));
    let mut out: Vec<Tilemap> = Vec::new();
    let mut i: usize = 0;
    while i < entries.len()
        invariant
            i <= entries@.len() == current@.len(),
            forall|j: int| 0 <= j < current@.len() ==> #[trigger] current@[j].wf(),
            rs == Seq::new(entries@.len(), |i: int| tilemap_entry(current@[i], version, entry_text(entries@[i]))),
            out@.len() == i,
            forall|j: int| 0 <= j < i ==> #[trigger] out@[j].width == current@[j].width && out@[j].height == current@[j].height,
            forall|j: int| 0 <= j < i ==> #[trigger] rs[j] == Ok::<(Seq<(u8, u8)>, u32), ResourceError>((out@[j].tiles@, out@[j].imgsrc)),
        decreases entries@.len() - i,
    {
        let src = &current[i];
        let present: bool = match &entries[i] {
            Some(_) => true,
            None => false,
        };
        let mut tiles: Vec<(u8, u8)> = Vec::new();
        let mut k: usize = 0;
        while k < src.tiles.len()
            invariant
                k <= src.tiles@.len(),
                tiles@.len() == k,
                forall|m: int| 0 <= m < k ==> #[trigger] tiles@[m] == (if present { src.tiles@[m] } else { (0u8, 0u8) }),
            decreases src.tiles@.len() - k,
        {
            let t = if present { src.tiles[k] } else { (0u8, 0u8) };
            tiles.push(t);
            k = k + 1;
        }
        let mut item = Tilemap { width: src.width, height: src.height, tiles, imgsrc: src.imgsrc };
        match &entries[i] {
            Some(text) => {
                assert(item.tiles@ =~= src.tiles@);
                assert(current@[i as int].wf());
                assert(item.wf());
                match item.deserialize_old(version, text.as_str()) {
                    Ok(()) => {},
                    Err(error) => {
                        return Err(StageError { index: i, error });
                    },
                }
            },
            None => {
                assert(item.tiles@ =~= Seq::new(src.tiles@.len(), |k: int| (0u8, 0u8)));
            },
        }
        out.push(item);
        i = i + 1;
    }
    proof {
        let v = out@.map_values(|t: Tilemap| (t.tiles@, t.imgsrc));
        assert forall|j: int| 0 <= j < rs.len() implies #[trigger] rs[j] == Ok::<(Seq<(u8, u8)>, u32), ResourceError>(v[j]) by {
            assert(rs[j] == Ok::<(Seq<(u8, u8)>, u32), ResourceError>((out@[j].tiles@, out@[j].imgsrc)));
        }
    }
    Ok(out)
}

} // verus!
