use proto_ecs::layer::{LayerHooks, LayerID, LayerManager};

#[derive(Debug, Default)]
struct Counting {
    attached: u32,
    detached: u32,
}

impl LayerHooks for Counting {
    fn on_attach(&mut self) {
        self.attached += 1;
    }

    fn on_detach(&mut self) {
        self.detached += 1;
    }
}

fn ids(v: &Vec<proto_ecs::layer::LayerContainer<Counting>>) -> Vec<LayerID> {
    v.iter().map(|c| c.id).collect()
}

#[test]
fn attachments_take_effect_when_processed_in_request_order() {
    let mut m: LayerManager<Counting> = LayerManager::new();
    let a = m.attach_layer(Counting::default());
    let b = m.attach_layer(Counting::default());
    let o = m.attach_overlays(Counting::default());
    assert_eq!((a, b, o), (0, 1, 2));
    assert!(m.layers().is_empty());

    m.attach_pending_layers();
    assert_eq!(ids(m.layers()), vec![0, 1]);
    assert!(m.layers().iter().all(|c| c.layer.attached == 1));
    assert!(m.overlays().is_empty());

    m.attach_pending_overlays();
    assert_eq!(ids(m.overlays()), vec![2]);
}

#[test]
fn detaching_removes_only_the_requested_layers() {
    let mut m: LayerManager<Counting> = LayerManager::new();
    for _ in 0..4 {
        m.attach_layer(Counting::default());
    }
    m.attach_pending_layers();
    m.detach_layer(&1);
    m.detach_layer(&3);
    m.detach_layer(&7);
    m.detach_pending_layers();
    assert_eq!(ids(m.layers()), vec![0, 2]);
    assert!(m.layers().iter().all(|c| c.layer.detached == 0));

    m.detach_pending_layers();
    assert_eq!(ids(m.layers()), vec![0, 2]);
}

#[test]
fn detaching_overlays_keeps_layers() {
    let mut m: LayerManager<Counting> = LayerManager::new();
    let l = m.attach_layer(Counting::default());
    let o = m.attach_overlays(Counting::default());
    m.attach_pending_layers();
    m.attach_pending_overlays();
    m.detach_overlay(&o);
    m.detach_pending_overlays();
    assert!(m.overlays().is_empty());
    assert_eq!(ids(m.layers()), vec![l]);
}
