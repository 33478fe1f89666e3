use vstd::prelude::*;

verus! {

/// Local file paths of the photos and device-frame images bundled with the
/// app, which templates and new frames refer to.
pub struct BundledPhotos {
    pub beach_horizon: String,
    pub sunset_pier: String,
    pub city_night: String,
    pub calm_lake: String,
    pub dunes: String,
    pub coastline: String,
    pub gold_interior: String,
    pub mono_pier: String,
    /// A transparent-screen iPhone frame, the default device frame image.
    pub iphone_frame: String,
    /// A transparent-screen MacBook Pro frame.
    pub macbook_frame: String,
    /// An Android phone outline frame with a transparent screen.
    pub android_frame: String,
    /// A waterdrop-notch Android frame with a transparent screen.
    pub android_waterdrop_frame: String,
    /// A tablet/iPad frame with a transparent screen.
    pub ipad_frame: String,
    /// Wordmark logo used in the product-listing template.
    pub uzasasa_logo: String,
    /// "Get it on Google Play" badge artwork.
    pub play_store_badge: String,
    /// "Download on the App Store" badge artwork.
    pub app_store_badge: String,
    /// A phone held in a hand, with a transparent screen hole.
    pub hand_phone_frame: String,
}

} // verus!
