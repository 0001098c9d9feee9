use feather_fences::dialog::{
    can_layout_prompt, can_place_prompt, entered_len, prompt_layout, prompt_place, prompt_result, until_zero, Area,
};
use feather_fences::geometry::Rect;
use feather_fences::message::PromptMessage;

#[test]
fn the_prompt_follows_the_scale_factor() {
    for dpi in [1u32, 96, 97, 120, 144, 192, 250, 400, 65_535] {
        let s = (dpi.max(96) as f32 / 96.0).max(1.0);
        let px = |v: f32| (v * s) as i32;
        assert!(can_layout_prompt(dpi));
        let p = prompt_layout(dpi);
        let (pad, cw, bw, bh) = (px(18.0), px(360.0), px(88.0), px(32.0));
        let by = pad + px(30.0) + px(22.0);
        assert_eq!((p.width, p.height, p.font), (cw, by + bh + pad, -px(15.0)));
        assert_eq!(p.edit, Area { x: pad, y: pad, w: cw - pad * 2, h: px(30.0) });
        assert_eq!(p.ok, Area { x: cw - pad - bw * 2 - px(12.0), y: by, w: bw, h: bh });
        assert_eq!(p.cancel, Area { x: cw - pad - bw, y: by, w: bw, h: bh });
    }
}

#[test]
fn a_prompt_cannot_outgrow_the_screen_coordinates() {
    assert!(!can_layout_prompt(u32::MAX));
}

#[test]
fn the_prompt_stays_in_the_work_area() {
    let wa = Rect { left: 0, top: 0, right: 1920, bottom: 1040 };
    for left in (-600..2400).step_by(61) {
        for (w, h) in [(380, 160), (1920, 1040), (381, 163)] {
            let parent = Rect { left, top: 700, right: left + 261, bottom: 1031 };
            assert!(can_place_prompt(wa, w, h));
            let x = (parent.left + (parent.right - parent.left - w) / 2).clamp(wa.left, wa.right - w);
            let y = (parent.top + (parent.bottom - parent.top - h) / 3).clamp(wa.top, wa.bottom - h);
            assert_eq!(prompt_place(parent, wa, w, h), (x, y), "{left} {w}");
        }
    }
    assert!(!can_place_prompt(wa, 1921, 100));
    assert!(!can_place_prompt(wa, 100, 1041));
}

#[test]
fn the_entered_text_is_cut_to_what_there_is() {
    assert_eq!(entered_len(-1, 512), 0);
    assert_eq!(entered_len(0, 512), 0);
    assert_eq!(entered_len(5, 512), 5);
    assert_eq!(entered_len(600, 512), 512);
}

#[test]
fn a_buffer_ends_at_its_first_zero() {
    assert_eq!(until_zero(&vec![65, 66, 0, 67]), 2);
    assert_eq!(until_zero(&vec![65, 66]), 2);
    assert_eq!(until_zero(&vec![0]), 0);
    assert_eq!(until_zero(&vec![]), 0);
}

#[test]
fn only_an_accepted_prompt_gives_its_text() {
    let t = || "name".to_string();
    assert_eq!(prompt_result(PromptMessage::Accept, t()), Some(t()));
    assert_eq!(prompt_result(PromptMessage::Accept, String::new()), Some(String::new()));
    for end in [PromptMessage::Cancel, PromptMessage::Ignored, PromptMessage::Default] {
        assert_eq!(prompt_result(end, t()), None);
    }
}
