# PrepaWeek

A weekly planner for students: categories of tasks, each with boxes to tick
over the week, a progress bar compared with the time elapsed, a weekly
questionnaire for tasks that vary from week to week, and a history of past
weeks with a streak counter.

- `src/` is the planner as a verified library: the configuration and the
  week built from it (`config`, `model`), state keys (`keys`), the keyed maps
  it uses (`strmap`), weeks and days (`calendar`, which calls chrono), the
  history and its summaries (`history`, `summary`, `textorder`), the weekly
  questionnaire (`setup`), the application's state machine (`planner`), and
  the small generator and colours of the animations (`rng`, `appearance`).
- `tests/` runs the library on concrete weeks.
- `app/` is the desktop window (eframe), the files (`config.toml`,
  `state.json`, `history.json`, `prefs.json`) and the animations.
