use lottie::legacy::{legacy_keyframe_layout, FrameSource, KeyFrameLayout, LegacyEntry, ValueSource};
use lottie::renderer::{index_in_text_range, Config, HeadlessConfig, TimelineAction, WindowConfig};
use lottie::timeline::{
    resolve_parents, stage_layers, try_stage_layers, AssetNode, LayerNode, LayerSource, ModelNodes, ParentLink,
    TargetRef, Timeline,
};

fn kf(has_end_value: bool, hold: bool) -> LegacyEntry {
    LegacyEntry::KeyFrame { has_end_value, hold }
}

#[test]
fn legacy_layout_drops_last_keyframe_before_frame_only_entry() {
    let r = legacy_keyframe_layout(&vec![kf(false, false), kf(false, false), LegacyEntry::TOnly]);
    assert_eq!(
        r,
        vec![KeyFrameLayout {
            entry: 0,
            end_value: ValueSource::StartOf(1),
            end_frame: FrameSource::StartOf(1),
        }]
    );
}

#[test]
fn legacy_layout_keeps_last_keyframe_with_end_value() {
    let r = legacy_keyframe_layout(&vec![kf(true, false), LegacyEntry::TOnly]);
    assert_eq!(
        r,
        vec![KeyFrameLayout {
            entry: 0,
            end_value: ValueSource::EndOf(0),
            end_frame: FrameSource::TOnly(1),
        }]
    );
}

#[test]
fn legacy_layout_hold_keeps_start_value() {
    let r = legacy_keyframe_layout(&vec![kf(true, true), kf(false, false)]);
    assert_eq!(
        r,
        vec![
            KeyFrameLayout {
                entry: 0,
                end_value: ValueSource::StartOf(0),
                end_frame: FrameSource::StartOf(1),
            },
            KeyFrameLayout {
                entry: 1,
                end_value: ValueSource::StartOf(1),
                end_frame: FrameSource::Unset,
            },
        ]
    );
}

#[test]
fn legacy_layout_of_nothing_is_empty() {
    assert!(legacy_keyframe_layout(&vec![]).is_empty());
    assert!(legacy_keyframe_layout(&vec![LegacyEntry::TOnly, kf(true, false)]).is_empty());
}

#[test]
fn legacy_layout_entries_after_frame_only_entry_are_ignored() {
    let r = legacy_keyframe_layout(&vec![kf(true, false), LegacyEntry::TOnly, kf(true, false)]);
    assert_eq!(r.len(), 1);
    assert_eq!(r[0].end_frame, FrameSource::TOnly(1));
}

fn layer(id: u32, index: Option<u32>, parent: Option<u32>, precomp: Option<&str>) -> LayerNode {
    LayerNode {
        id,
        index,
        parent_index: parent,
        precomposition: precomp.map(|s| s.to_string()),
    }
}

fn sample_model() -> ModelNodes {
    ModelNodes {
        layers: vec![
            layer(1, Some(1), None, None),
            layer(2, Some(2), Some(1), Some("comp")),
            layer(3, Some(3), None, Some("missing")),
        ],
        assets: vec![AssetNode {
            id: "comp".to_string(),
            layers: vec![layer(10, Some(1), None, None), layer(11, Some(5), Some(1), None)],
        }],
    }
}

#[test]
fn staging_expands_precompositions_after_top_layers() {
    let m = sample_model();
    let s = stage_layers(&m);
    assert_eq!(s.len(), 4);
    assert_eq!(s[0].source, LayerSource::Top(0));
    assert_eq!(s[1].source, LayerSource::Top(1));
    assert_eq!(s[2].source, LayerSource::Asset(0, 0));
    assert_eq!(s[3].source, LayerSource::Asset(0, 1));
    assert_eq!(s[0].container, None);
    assert_eq!(s[2].container, Some(1));
    assert_eq!(s[3].container, Some(1));
    assert!(matches!(s[1].target, TargetRef::Layer(2)));
    assert!(matches!(&s[2].target, TargetRef::Asset(a) if a == "comp"));
}

#[test]
fn parents_attach_to_last_layer_with_index_or_wait() {
    let links = vec![
        ParentLink { index: Some(7), parent_index: Some(9), initial: None },
        ParentLink { index: Some(9), parent_index: None, initial: None },
        ParentLink { index: Some(4), parent_index: Some(7), initial: Some(1) },
        ParentLink { index: Some(5), parent_index: Some(8), initial: Some(0) },
    ];
    assert_eq!(resolve_parents(&links), vec![Some(1), None, Some(0), Some(0)]);
}

#[test]
fn timeline_links_parents_and_opacity_chains() {
    let t = Timeline::new(&sample_model());
    assert_eq!(t.items().len(), 4);
    let parents: Vec<Option<usize>> = t.items().iter().map(|l| l.parent).collect();
    assert_eq!(parents, vec![None, Some(0), Some(1), Some(2)]);
    assert_eq!(t.item(3).map(|l| l.id), Some(3));
    assert!(t.item(4).is_none());
    assert_eq!(t.opacity(3), Some(&vec![3, 2, 1, 0]));
    assert_eq!(t.opacity(0), Some(&vec![0]));
    assert_eq!(t.opacity(9), None);
}

#[test]
fn config_headless() {
    assert!(Config::Headless(HeadlessConfig {}).is_headless());
    let w = WindowConfig { show_controls: true, show_debug: false };
    assert!(!Config::Window(w).is_headless());
    assert_ne!(TimelineAction::Spawn(1), TimelineAction::Destroy(1));
}

#[test]
fn self_referencing_precomposition_never_ends() {
    let m = ModelNodes {
        layers: vec![layer(1, None, None, Some("loop"))],
        assets: vec![AssetNode {
            id: "loop".to_string(),
            layers: vec![layer(2, None, None, Some("loop"))],
        }],
    };
    assert!(try_stage_layers(&m).is_none());
    assert!(Timeline::try_new(&m).is_none());
}

#[test]
fn layer_parenting_itself_is_refused() {
    let m = ModelNodes { layers: vec![layer(1, Some(4), Some(4), None)], assets: vec![] };
    assert_eq!(try_stage_layers(&m).map(|v| v.len()), Some(1));
    assert!(Timeline::try_new(&m).is_none());
}

#[test]
fn try_new_builds_what_new_builds() {
    let t = Timeline::try_new(&sample_model()).unwrap();
    assert_eq!(t.items().len(), 4);
    assert_eq!(t.opacity(2), Some(&vec![2, 1, 0]));
}

#[test]
fn opacity_stack_follows_parent_chain() {
    let t = Timeline::new(&sample_model());
    for id in 0..t.items().len() {
        let stack = t.opacity(id).unwrap();
        assert_eq!(stack[0], id);
        for w in stack.windows(2) {
            assert_eq!(t.item(w[0]).unwrap().parent, Some(w[1]));
        }
        assert_eq!(t.item(*stack.last().unwrap()).unwrap().parent, None);
    }
}

#[test]
fn text_range_counts_characters_of_earlier_lines() {
    let value = vec![vec!['a', 'b', 'c'], vec!['d', 'e'], vec!['f']];
    // 'e' is character 4 of the text.
    assert!(index_in_text_range(&value, 1, 1, 4, 5));
    assert!(!index_in_text_range(&value, 1, 1, 0, 4));
    assert!(index_in_text_range(&value, 0, 0, 0, 1));
    assert!(!index_in_text_range(&value, 2, 0, 0, 5));
    assert!(index_in_text_range(&value, 2, 0, 5, usize::MAX));
}
