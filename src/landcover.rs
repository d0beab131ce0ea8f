//! Land-cover sources: which raw 10° cell a 1° cell comes from, and the
//! names of the Blue Marble imagery tiles.

use vstd::prelude::*;
use vstd::string::StringExecFns;
use crate::heightmap::modulo;

verus! {

#[derive(Clone, Copy, Debug, PartialEq, Eq, Structural)]
pub enum LandCoverKind {
    TreeCover,
    WaterMask,
}

impl LandCoverKind {
    /// Bands per sample.
    pub fn bands(&self) -> (r: usize)
        ensures
            r == 1,
    {
        1
    }
}

/// A raw 10° × 10° cell; coordinates are those of its lower left corner.
#[derive(Clone, Copy, Debug, PartialEq, Eq, Structural)]
pub struct RawLandCoverParams {
    pub latitude: i16,
    pub longitude: i16,
    pub kind: LandCoverKind,
}

/// A processed 1° × 1° cell; coordinates are those of its lower left corner.
#[derive(Clone, Copy, Debug, PartialEq, Eq, Structural)]
pub struct LandCoverParams {
    pub latitude: i16,
    pub longitude: i16,
    pub kind: LandCoverKind,
}

impl LandCoverParams {
    /// The raw cell that holds this one: each coordinate rounded down to a multiple of 10.
    pub fn raw_params(&self) -> (r: RawLandCoverParams)
        requires
            self.latitude as int - self.latitude as int % 10 >= i16::MIN,
            self.longitude as int - self.longitude as int % 10 >= i16::MIN,
        ensures
            r.latitude == self.latitude as int - self.latitude as int % 10,
            r.longitude == self.longitude as int - self.longitude as int % 10,
            r.kind == self.kind,
    {
        let lat = modulo(self.latitude as i64, 10) as i16;
        let lon = modulo(self.longitude as i64, 10) as i16;
        RawLandCoverParams { latitude: self.latitude - lat, longitude: self.longitude - lon, kind: self.kind }
    }
}

/// A water-mask sample as stored: land (1) becomes 0, water or no data (0 or 2) 255.
pub open spec fn water_value(v: u8) -> u8 {
    if v == 1 {
        0
    } else {
        255
    }
}

/// The samples of a raw cell as a processed cell stores them: tree cover as read, the
/// water mask through `water_value`.
pub fn processed_values(kind: LandCoverKind, values: Vec<u8>) -> (r: Vec<u8>)
    requires
        kind is WaterMask ==> forall|k: int| 0 <= k < values.len() ==> #[trigger] values@[k] <= 2,
    ensures
        kind is TreeCover ==> r@ == values@,
        kind is WaterMask ==> r.len() == values.len() && forall|k: int|
            0 <= k < values.len() ==> #[trigger] r@[k] == water_value(values@[k]),
{
    match kind {
        LandCoverKind::TreeCover => values,
        LandCoverKind::WaterMask => {
            let mut r: Vec<u8> = Vec::new();
            let mut k: usize = 0;
            while k < values.len()
                invariant
                    0 <= k <= values.len(),
                    r.len() == k,
                    forall|j: int| 0 <= j < k ==> #[trigger] r@[j] == water_value(values@[j]),
                decreases values.len() - k,
            {
                let v = values[k];
                r.push(if v == 1 { 0 } else { 255 });
                k = k + 1;
            }
            r
        },
    }
}

/// The whole-world Blue Marble image.
pub struct BlueMarble;

impl BlueMarble {
    pub fn filename(&self) -> (r: String)
        ensures
            r@ == "bluemarble/world.200406.3x21600x10800.png"@,
    {
        String::from_str("bluemarble/world.200406.3x21600x10800.png")
    }
}

/// One 90° × 90° Blue Marble tile, named by its lower left corner.
pub struct BlueMarbleTile {
    pub latitude_llcorner: i16,
    pub longitude_llcorner: i16,
}

/// Column letter of a tile whose lower left corner lies at `longitude`.
pub open spec fn column_letter(longitude: i16) -> Seq<char> {
    if longitude == -180 {
        "A"@
    } else if longitude == -90 {
        "B"@
    } else if longitude == 0 {
        "C"@
    } else {
        "D"@
    }
}

/// Row digit of a tile whose lower left corner lies at `latitude`.
pub open spec fn row_digit(latitude: i16) -> Seq<char> {
    if latitude == 0 {
        "1"@
    } else {
        "2"@
    }
}

impl BlueMarbleTile {
    pub open spec fn corner_ok(&self) -> bool {
        &&& (self.longitude_llcorner == -180 || self.longitude_llcorner == -90 || self.longitude_llcorner == 0
            || self.longitude_llcorner == 90)
        &&& (self.latitude_llcorner == 0 || self.latitude_llcorner == -90)
    }

    /// The image's file name: `world.200406.3x21600x21600.` then the column letter (A to D
    /// from -180° east) and the row digit (1 north, 2 south), then `.png`.
    pub fn name(&self) -> (r: String)
        requires
            self.corner_ok(),
        ensures
            r@ == "world.200406.3x21600x21600."@ + column_letter(self.longitude_llcorner) + row_digit(
                self.latitude_llcorner,
            ) + ".png"@,
    {
        let mut s = String::from_str("world.200406.3x21600x21600.");
        let x: &str = if self.longitude_llcorner == -180 {
            "A"
        } else if self.longitude_llcorner == -90 {
            "B"
        } else if self.longitude_llcorner == 0 {
            "C"
        } else {
            "D"
        };
        let y: &str = if self.latitude_llcorner == 0 {
            "1"
        } else {
            "2"
        };
        s.append(x);
        s.append(y);
        s.append(".png");
        s
    }

    pub fn filename(&self) -> (r: String)
        requires
            self.corner_ok(),
        ensures
            r@ == "bluemarble/"@ + "world.200406.3x21600x21600."@ + column_letter(self.longitude_llcorner)
                + row_digit(self.latitude_llcorner) + ".png"@,
    {
        let mut s = String::from_str("bluemarble/");
        let n = self.name();
        s.append(n.as_str());
        proof {
            assert(s@ =~= "bluemarble/"@ + ("world.200406.3x21600x21600."@ + column_letter(self.longitude_llcorner)
                + row_digit(self.latitude_llcorner) + ".png"@));
        }
        s
    }
}

/// The tiled Blue Marble imagery as a raster source.
pub struct BlueMarbleTileSource;

impl BlueMarbleTileSource {
    /// Bands per sample.
    pub fn bands(&self) -> (r: usize)
        ensures
            r == 3,
    {
        3
    }

    /// Degrees covered by one tile.
    pub fn raster_size(&self) -> (r: i16)
        ensures
            r == 90,
    {
        90
    }
}

/// The global land/water mask.
pub struct GlobalWaterMask;

impl GlobalWaterMask {
    pub fn filename(&self) -> (r: String)
        ensures
            r@ == "watermask/GlobalLandCover_tif.zip"@,
    {
        String::from_str("watermask/GlobalLandCover_tif.zip")
    }
}

} // verus!
