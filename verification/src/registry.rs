//! The registry of recognized configuration key names: a fixed vocabulary
//! covering the device's configuration domains (touchscreen, HTTP server,
//! access control, multicast, firmware, sharing, broadcasting, encoder video
//! and audio settings, overlays, channel layout, publish destinations,
//! content metadata and recorder settings). A token is a key exactly when it
//! appears in this list.

use vstd::prelude::*;

use crate::text::str_eq;

verus! {

/// The fixed vocabulary of recognized configuration key names. A few entries
/// repeat; duplicates are harmless, since only membership matters.
pub open spec fn key_list() -> Seq<Seq<char>> {
    seq![
        "touchscreen_enabled"@,
        "touchscreen_preview"@,
        "touchscreen_info"@,
        "touchscreen_settings"@,
        "touchscreen_recordctl"@,
        "touchscreen_timeout"@,
        "touchscreen_backlight"@,
        "http_usessl"@,
        "http_port"@,
        "http_sport"@,
        "allowips"@,
        "denyips"@,
        "description"@,
        "multicast_ip"@,
        "multicast_rate_limit"@,
        "frmcheck_enabled"@,
        "share_livestreams"@,
        "share_archive"@,
        "server_name"@,
        "bcast_disabled"@,
        "streamport"@,
        "rtsp_port"@,
        "framesize"@,
        "autoframesize"@,
        "fpslimit"@,
        "vbitrate"@,
        "vencpreset"@,
        "vprofile"@,
        "vkeyframeinterval"@,
        "slicemode"@,
        "qvalue"@,
        "codec"@,
        "audio"@,
        "audiopreset"@,
        "audiobitrate"@,
        "audiochannels"@,
        "type"@,
        "timelabel"@,
        "pip_layout"@,
        "bgcolor"@,
        "vgadvi"@,
        "keep_aspect_ratio"@,
        "active_layout"@,
        "ac_override"@,
        "ac_viewerpwd"@,
        "ac_allowips"@,
        "ac_denyips"@,
        "publish_enabled"@,
        "publish_type"@,
        "rtsp_url"@,
        "rtsp_transport"@,
        "rtsp_username"@,
        "rtsp_password"@,
        "rtmp_url"@,
        "rtmp_stream"@,
        "rtmp_username"@,
        "rtmp_password"@,
        "livestream_channel"@,
        "livestream_username"@,
        "livestream_password"@,
        "unicast_address"@,
        "unicast_aport"@,
        "unicast_vport"@,
        "unicast_address"@,
        "unicast_address"@,
        "unicast_mport"@,
        "sap"@,
        "sap_ip"@,
        "sap_group"@,
        "sap_channel_no"@,
        "title"@,
        "author"@,
        "copyright"@,
        "comment"@,
        "rec_enabled"@,
        "rec_sizelimit"@,
        "rec_timelimit"@,
        "rec_format"@,
        "rec_prefix"@,
        "rec_upnp"@,
    ]
}

/// Whether a token is a recognized configuration key: exact, case-sensitive
/// membership in the fixed vocabulary.
pub open spec fn is_key_spec(t: Seq<char>) -> bool {
    key_list().contains(t)
}

/// Builds the key vocabulary, in the order of `key_list`.
pub fn init_keymap() -> (keys: Vec<&'static str>)
    ensures
        keys.deep_view() == key_list(),
{
    let keys: Vec<&'static str> = vec![
        "touchscreen_enabled",
        "touchscreen_preview",
        "touchscreen_info",
        "touchscreen_settings",
        "touchscreen_recordctl",
        "touchscreen_timeout",
        "touchscreen_backlight",
        "http_usessl",
        "http_port",
        "http_sport",
        "allowips",
        "denyips",
        "description",
        "multicast_ip",
        "multicast_rate_limit",
        "frmcheck_enabled",
        "share_livestreams",
        "share_archive",
        "server_name",
        "bcast_disabled",
        "streamport",
        "rtsp_port",
        "framesize",
        "autoframesize",
        "fpslimit",
        "vbitrate",
        "vencpreset",
        "vprofile",
        "vkeyframeinterval",
        "slicemode",
        "qvalue",
        "codec",
        "audio",
        "audiopreset",
        "audiobitrate",
        "audiochannels",
        "type",
        "timelabel",
        "pip_layout",
        "bgcolor",
        "vgadvi",
        "keep_aspect_ratio",
        "active_layout",
        "ac_override",
        "ac_viewerpwd",
        "ac_allowips",
        "ac_denyips",
        "publish_enabled",
        "publish_type",
        "rtsp_url",
        "rtsp_transport",
        "rtsp_username",
        "rtsp_password",
        "rtmp_url",
        "rtmp_stream",
        "rtmp_username",
        "rtmp_password",
        "livestream_channel",
        "livestream_username",
        "livestream_password",
        "unicast_address",
        "unicast_aport",
        "unicast_vport",
        "unicast_address",
        "unicast_address",
        "unicast_mport",
        "sap",
        "sap_ip",
        "sap_group",
        "sap_channel_no",
        "title",
        "author",
        "copyright",
        "comment",
        "rec_enabled",
        "rec_sizelimit",
        "rec_timelimit",
        "rec_format",
        "rec_prefix",
        "rec_upnp",
    ];
    proof {
        assert(keys.deep_view() =~= key_list());
    }
    keys
}

/// Decides whether `value` is a recognized configuration key.
pub fn is_key(value: &str) -> (r: bool)
    ensures
        r == is_key_spec(value@),
{
    let keys: Vec<&'static str> = init_keymap();
    let n: usize = keys.len();
    let mut i: usize = 0;
    while i < n
        invariant
            i <= n,
            n == keys.deep_view().len(),
            keys.deep_view() == key_list(),
            forall|j: int| 0 <= j < i ==> keys.deep_view()[j] != value@,
        decreases n - i,
    {
        if str_eq(value, keys[i]) {
            proof {
                assert(key_list().contains(value@));
            }
            return true;
        }
        i = i + 1;
    }
    proof {
        assert(!key_list().contains(value@));
    }
    false
}

} // verus!
