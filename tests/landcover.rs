use terra::landcover::{
    BlueMarble, BlueMarbleTile, BlueMarbleTileSource, GlobalWaterMask, LandCoverKind,
    LandCoverParams, RawLandCoverParams, processed_values,
};

#[test]
fn to_raw_params() {
    assert_eq!(
        LandCoverParams { latitude: 165, longitude: 31, kind: LandCoverKind::TreeCover }
            .raw_params(),
        RawLandCoverParams { latitude: 160, longitude: 30, kind: LandCoverKind::TreeCover }
    );

    assert_eq!(
        LandCoverParams { latitude: 20, longitude: 20, kind: LandCoverKind::TreeCover }
            .raw_params(),
        RawLandCoverParams { latitude: 20, longitude: 20, kind: LandCoverKind::TreeCover }
    );

    assert_eq!(
        LandCoverParams { latitude: -18, longitude: -18, kind: LandCoverKind::TreeCover }
            .raw_params(),
        RawLandCoverParams { latitude: -20, longitude: -20, kind: LandCoverKind::TreeCover }
    );

    assert_eq!(
        LandCoverParams { latitude: -30, longitude: -30, kind: LandCoverKind::TreeCover }
            .raw_params(),
        RawLandCoverParams { latitude: -30, longitude: -30, kind: LandCoverKind::TreeCover }
    );
}

#[test]
fn raw_params_keeps_kind() {
    let r = LandCoverParams { latitude: -1, longitude: 9, kind: LandCoverKind::WaterMask }
        .raw_params();
    assert_eq!(r, RawLandCoverParams { latitude: -10, longitude: 0, kind: LandCoverKind::WaterMask });
}

#[test]
fn blue_marble_tile_names() {
    let t = BlueMarbleTile { latitude_llcorner: 0, longitude_llcorner: -180 };
    assert_eq!(t.name(), "world.200406.3x21600x21600.A1.png");
    let t = BlueMarbleTile { latitude_llcorner: -90, longitude_llcorner: 90 };
    assert_eq!(t.name(), "world.200406.3x21600x21600.D2.png");
    assert_eq!(t.filename(), "bluemarble/world.200406.3x21600x21600.D2.png");
    let t = BlueMarbleTile { latitude_llcorner: 0, longitude_llcorner: 0 };
    assert_eq!(t.name(), "world.200406.3x21600x21600.C1.png");
}

#[test]
fn fixed_asset_names() {
    assert_eq!(BlueMarble.filename(), "bluemarble/world.200406.3x21600x10800.png");
    assert_eq!(GlobalWaterMask.filename(), "watermask/GlobalLandCover_tif.zip");
    assert_eq!(BlueMarbleTileSource.bands(), 3);
    assert_eq!(BlueMarbleTileSource.raster_size(), 90);
    assert_eq!(LandCoverKind::TreeCover.bands(), 1);
}

#[test]
fn processed_land_cover_values() {
    assert_eq!(processed_values(LandCoverKind::WaterMask, vec![0, 1, 2, 1]), vec![255, 0, 255, 0]);
    assert_eq!(processed_values(LandCoverKind::TreeCover, vec![0, 1, 77]), vec![0, 1, 77]);
}
