# grid_ops

Verified decision logic for two operations of a provider grid:

- **Pressure-weighted placement** (`placement`, `weights`, `order`):
  validation of the placement controls, group-local allocation of integer
  weights from per-provider shares (largest remainder, then identity order,
  then bounds, then a last pass for leftover units), and damping of
  published weights by a change threshold. `placement_laws` and
  `placement_order` state and prove what holds of every allocation: each
  weight lies within the bounds, every provider gets one, input order does
  not matter, a group's weights do not depend on other groups, publishing
  twice changes nothing, and a refused configuration leaves the state as it
  was.
- **Administrative provider draining** (`drain`, `overlay`, `convergence`,
  `run`, `text`, `json`): selector validation, selection by exact
  `spec.gatewayRef`, the kubectl requests, the drain run as a state machine
  that restores partially updated providers, overlay ConfigMap lookup by
  exact labels, revision fields read from Praxis logs, and the convergence
  gate: every selected provider stores the requested drain state, every
  consumer shows it and serves the accepted revision, and two identical
  such observations come in a row.

`src/` is the verified library. `app/` is the command-line program around it:
argument handling, running kubectl, timing, printing, and the floating-point
part of the pressure calculation, which hands the library integer shares.
